//! Decimal floating-point literals: the grammar that a constant's token has
//! to follow, and a recogniser for it.
//!
//! ```text
//! Literal  ::= Sign? ( 'inf' | 'infinity' | 'nan' | Number )
//! Number   ::= Mantissa Exponent?
//! Mantissa ::= Digit+ | Digit+ '.' Digit* | Digit* '.' Digit+
//! Exponent ::= 'e' Sign? Digit+
//! Sign     ::= '+' | '-'
//! Digit    ::= '0' ... '9'
//! ```
//!
//! Letters match in either case. Nothing may precede or follow the literal.

use vstd::prelude::*;
use vstd::string::StringSliceAdditionalSpecFns;

verus! {

/// `b` is a decimal digit.
pub open spec fn is_digit(b: u8) -> bool {
    '0' as u8 <= b <= '9' as u8
}

/// `b` is `+` or `-`.
pub open spec fn is_sign(b: u8) -> bool {
    b == '+' as u8 || b == '-' as u8
}

/// `b` with an upper-case ASCII letter turned into its lower-case form.
pub open spec fn lowercase(b: u8) -> u8 {
    if 'A' as u8 <= b <= 'Z' as u8 {
        (b + 32) as u8
    } else {
        b
    }
}

/// Every byte of `s` from `from` up to, not including, `to` is a digit.
pub open spec fn digits(s: Seq<u8>, from: int, to: int) -> bool {
    forall|j: int| from <= j < to ==> is_digit(#[trigger] s[j])
}

/// `s` spells `word`, which is in lower case, in either case.
pub open spec fn spells(s: Seq<u8>, word: Seq<u8>) -> bool {
    &&& s.len() == word.len()
    &&& forall|j: int| 0 <= j < s.len() ==> lowercase(#[trigger] s[j]) == word[j]
}

/// `s` is one of the three words for a value that is no number.
pub open spec fn is_special(s: Seq<u8>) -> bool {
    ||| spells(s, "inf".spec_bytes())
    ||| spells(s, "infinity".spec_bytes())
    ||| spells(s, "nan".spec_bytes())
}

/// `s` is digits, with at most one `.` among them and at least one digit.
pub open spec fn is_mantissa(s: Seq<u8>) -> bool {
    ||| s.len() >= 1 && digits(s, 0, s.len() as int)
    ||| exists|dot: int|
        {
            &&& 0 <= dot < s.len()
            &&& #[trigger] s[dot] == '.' as u8
            &&& digits(s, 0, dot)
            &&& digits(s, dot + 1, s.len() as int)
            &&& s.len() >= 2
        }
}

/// `s` is `e`, an optional sign, and at least one digit.
pub open spec fn is_exponent(s: Seq<u8>) -> bool {
    &&& s.len() >= 2
    &&& lowercase(s[0]) == 'e' as u8
    &&& {
        let from: int = if is_sign(s[1]) {
            2
        } else {
            1
        };
        from < s.len() && digits(s, from, s.len() as int)
    }
}

/// `s` is a mantissa, followed by an exponent or by nothing.
pub open spec fn is_number(s: Seq<u8>) -> bool {
    exists|m: int|
        {
            &&& 0 <= m <= s.len()
            &&& is_mantissa(#[trigger] s.take(m))
            &&& (m == s.len() || is_exponent(s.skip(m)))
        }
}

/// `s` with a leading sign taken off.
pub open spec fn unsigned(s: Seq<u8>) -> Seq<u8> {
    if s.len() > 0 && is_sign(s[0]) {
        s.skip(1)
    } else {
        s
    }
}

/// `s` is a literal of the grammar.
pub open spec fn is_float_literal(s: Seq<u8>) -> bool {
    is_special(unsigned(s)) || is_number(unsigned(s))
}

/// Decides `is_digit`.
fn digit(b: u8) -> (r: bool)
    ensures
        r == is_digit(b),
{
    '0' as u8 <= b && b <= '9' as u8
}

/// Decides `is_sign`.
fn sign(b: u8) -> (r: bool)
    ensures
        r == is_sign(b),
{
    b == '+' as u8 || b == '-' as u8
}

/// Computes `lowercase`.
fn lower(b: u8) -> (r: u8)
    ensures
        r == lowercase(b),
{
    if 'A' as u8 <= b && b <= 'Z' as u8 {
        b + 32
    } else {
        b
    }
}

/// The end of the run of digits that starts at `from`.
fn skip_digits(s: &[u8], from: usize) -> (to: usize)
    requires
        from <= s@.len(),
    ensures
        from <= to <= s@.len(),
        digits(s@, from as int, to as int),
        to < s@.len() ==> !is_digit(s@[to as int]),
{
    let mut to = from;
    while to < s.len() && digit(s[to])
        invariant
            from <= to <= s@.len(),
            digits(s@, from as int, to as int),
        decreases s@.len() - to,
    {
        to += 1;
    }
    to
}

/// Decides `spells`.
fn spells_word(s: &[u8], word: &[u8]) -> (r: bool)
    ensures
        r == spells(s@, word@),
{
    if s.len() != word.len() {
        return false;
    }
    let mut i: usize = 0;
    while i < s.len()
        invariant
            s@.len() == word@.len(),
            i <= s@.len(),
            forall|j: int| 0 <= j < i ==> lowercase(#[trigger] s@[j]) == word@[j],
        decreases s@.len() - i,
    {
        if lower(s[i]) != word[i] {
            return false;
        }
        i += 1;
    }
    true
}

/// Decides `is_special`.
fn special(s: &[u8]) -> (r: bool)
    ensures
        r == is_special(s@),
{
    spells_word(s, "inf".as_bytes()) || spells_word(s, "infinity".as_bytes()) || spells_word(
        s,
        "nan".as_bytes(),
    )
}

/// The grammar leaves no choice of where the mantissa ends: where `a` is the
/// end of the leading digits of `s` and `b` the end of the digits after a
/// point that follows them, a mantissa of `s` with an exponent or nothing
/// after it ends at `b`.
proof fn lemma_mantissa_end(s: Seq<u8>, a: int, b: int, m: int)
    requires
        0 <= a <= b <= s.len(),
        digits(s, 0, a),
        a < s.len() ==> !is_digit(s[a]),
        if a < s.len() && s[a] == '.' as u8 {
            a < b && digits(s, a + 1, b) && (b < s.len() ==> !is_digit(s[b]))
        } else {
            b == a
        },
        0 <= m <= s.len(),
        is_mantissa(s.take(m)),
        m == s.len() || is_exponent(s.skip(m)),
    ensures
        m == b,
{
    let t = s.take(m);
    if t.len() >= 1 && digits(t, 0, t.len() as int) {
        // A mantissa of digits alone stops at the first byte that is none,
        // and what follows it is no digit.
        if m > a {
            assert(is_digit(t[a]));
        }
    } else {
        // A mantissa with a point has it where the leading digits end, and
        // stops where the digits after it end.
        let dot = choose|dot: int|
            {
                &&& 0 <= dot < t.len()
                &&& #[trigger] t[dot] == '.' as u8
                &&& digits(t, 0, dot)
                &&& digits(t, dot + 1, t.len() as int)
                &&& t.len() >= 2
            };
        if dot > a {
            assert(is_digit(t[a]));
        }
        if m > b {
            assert(is_digit(t[b]));
        }
    }
}

/// Decides `is_number`.
fn number(s: &[u8]) -> (r: bool)
    ensures
        r == is_number(s@),
{
    let n = s.len();
    // The mantissa: the digits before the point, the point and the digits
    // after it.
    let whole = skip_digits(s, 0);
    let dotted = whole < n && s[whole] == '.' as u8;
    let end = if dotted {
        skip_digits(s, whole + 1)
    } else {
        whole
    };
    let digit_count = if dotted {
        end - 1
    } else {
        end
    };
    let ghost mantissa = s@.take(end as int);
    let accepted = if digit_count == 0 {
        false
    } else if end == n {
        true
    } else if lower(s[end]) != 'e' as u8 {
        false
    } else {
        // The exponent: its sign and its digits, up to the end of the text.
        let from = if end + 1 < n && sign(s[end + 1]) {
            end + 2
        } else {
            end + 1
        };
        from < n && skip_digits(s, from) == n
    };
    proof {
        // The grammar admits the text only in the way it was read.
        if is_number(s@) {
            let m = choose|m: int|
                {
                    &&& 0 <= m <= s@.len()
                    &&& is_mantissa(#[trigger] s@.take(m))
                    &&& (m == s@.len() || is_exponent(s@.skip(m)))
                };
            lemma_mantissa_end(s@, whole as int, end as int, m);
            if end > 0 && dotted && whole == 0 {
                assert(!is_digit(mantissa[0]));
            }
            if end < n {
                let rest = s@.skip(end as int);
                let from: int = if is_sign(s@[end + 1]) {
                    end + 2
                } else {
                    end + 1
                };
                assert forall|j: int| from <= j < n implies is_digit(#[trigger] s@[j]) by {
                    assert(rest[j - end] == s@[end + (j - end)]);
                }
            }
        }
    }
    accepted
}

/// Decides `is_float_literal`.
pub fn float_literal(s: &[u8]) -> (r: bool)
    ensures
        r == is_float_literal(s@),
{
    if s.len() > 0 && sign(s[0]) {
        let body = &s[1..s.len()];
        special(body) || number(body)
    } else {
        special(s) || number(s)
    }
}

/// The text of a constant, known to follow the grammar.
#[derive(Debug, PartialEq, Eq)]
pub struct Literal {
    text: Vec<u8>,
}

impl View for Literal {
    type V = Seq<u8>;

    closed spec fn view(&self) -> Seq<u8> {
        self.text@
    }
}

impl Literal {
    #[verifier::type_invariant]
    spec fn well_formed(self) -> bool {
        is_float_literal(self.text@)
    }

    /// The literal that `text` spells, if it spells one.
    pub fn parse(text: &[u8]) -> (out: Option<Literal>)
        ensures
            match out {
                Some(literal) => is_float_literal(text@) && literal@ == text@,
                None => !is_float_literal(text@),
            },
    {
        if !float_literal(text) {
            return None;
        }
        let mut copy: Vec<u8> = Vec::new();
        let mut i: usize = 0;
        while i < text.len()
            invariant
                i <= text@.len(),
                copy@ == text@.take(i as int),
            decreases text@.len() - i,
        {
            copy.push(text[i]);
            i += 1;
        }
        assert(copy@ =~= text@);
        Some(Literal { text: copy })
    }

    /// The bytes of the literal.
    pub fn as_bytes(&self) -> (bytes: &[u8])
        ensures
            bytes@ == self@,
            is_float_literal(bytes@),
    {
        proof {
            use_type_invariant(self);
        }
        self.text.as_slice()
    }
}

} // verus!
