//! Pointer text: decoding the escapes of a segment and reading array indices.

use vstd::prelude::*;
use vstd::std_specs::iter::IteratorSpec;

verus! {

/// The decoded form of one raw segment: `~0` stands for `~`, `~1` for `/`, every
/// other character for itself; any other `~` makes the segment invalid.
pub open spec fn unescape(s: Seq<char>) -> Option<Seq<char>>
    decreases s.len(),
{
    if s.len() == 0 {
        Some(Seq::empty())
    } else if s[0] == '~' {
        if s.len() >= 2 && s[1] == '0' {
            prepend(seq!['~'], unescape(s.skip(2)))
        } else if s.len() >= 2 && s[1] == '1' {
            prepend(seq!['/'], unescape(s.skip(2)))
        } else {
            None
        }
    } else {
        prepend(seq![s[0]], unescape(s.skip(1)))
    }
}

/// `o` with `p` put in front of its contents.
pub open spec fn prepend(p: Seq<char>, o: Option<Seq<char>>) -> Option<Seq<char>> {
    match o {
        Some(r) => Some(p + r),
        None => None,
    }
}

proof fn lemma_prepend_twice(p: Seq<char>, q: Seq<char>, o: Option<Seq<char>>)
    ensures
        prepend(p, prepend(q, o)) == prepend(p + q, o),
{
    if let Some(r) = o {
        assert(p + (q + r) == (p + q) + r);
    }
}

/// Relies on `String::push`: the character is added at the end.
#[verifier::external_body]
pub(crate) fn push_char(s: &mut String, c: char)
    ensures
        final(s)@ == old(s)@.push(c),
{
    s.push(c)
}

/// The characters of `s`, in order.
pub(crate) fn chars_of(s: &str) -> (r: Vec<char>)
    ensures
        r@ == s@,
{
    let mut it = s.chars();
    let mut out: Vec<char> = Vec::new();
    loop
        invariant
            out@ + it.remaining() == s@,
        ensures
            out@ == s@,
        decreases s@.len() - out@.len(),
    {
        match it.next() {
            Some(c) => {
                out.push(c);
            },
            None => {
                assert(out@ + it.remaining() =~= out@);
                break;
            },
        }
    }
    out
}

/// Decodes the escapes of one raw segment: `~0` becomes `~` and `~1` becomes `/`.
/// Any other `~` sequence, a trailing `~` among them, makes the segment invalid.
pub fn unescape_token(token: &str) -> (r: Option<String>)
    ensures
        match r {
            Some(s) => unescape(token@) == Some(s@),
            None => unescape(token@) is None,
        },
{
    let cs = chars_of(token);
    let n = cs.len();
    let mut out = String::new();
    let mut i: usize = 0;
    assert(token@.skip(0) =~= token@);
    proof {
        if let Some(r) = unescape(token@) {
            assert(Seq::<char>::empty() + r =~= r);
        }
    }
    while i < n
        invariant
            cs@ == token@,
            n == token@.len(),
            i <= n,
            unescape(token@) == prepend(out@, unescape(token@.skip(i as int))),
        decreases n - i,
    {
        let rest = Ghost(token@.skip(i as int));
        let c = cs[i];
        if c == '~' {
            if i + 1 < n {
                let d = cs[i + 1];
                assert(rest@.skip(2) == token@.skip(i + 2));
                if d == '0' {
                    proof {
                        lemma_prepend_twice(out@, seq!['~'], unescape(rest@.skip(2)));
                    }
                    push_char(&mut out, '~');
                } else if d == '1' {
                    proof {
                        lemma_prepend_twice(out@, seq!['/'], unescape(rest@.skip(2)));
                    }
                    push_char(&mut out, '/');
                } else {
                    return None;
                }
                i = i + 2;
            } else {
                return None;
            }
        } else {
            assert(rest@.skip(1) == token@.skip(i + 1));
            proof {
                lemma_prepend_twice(out@, seq![c], unescape(rest@.skip(1)));
            }
            push_char(&mut out, c);
            i = i + 1;
        }
    }
    assert(token@.skip(i as int) =~= Seq::<char>::empty());
    assert(out@ + Seq::<char>::empty() == out@);
    Some(out)
}

/// Whether `c` is one of the decimal digits `0` to `9`.
pub open spec fn is_digit(c: char) -> bool {
    '0' <= c && c <= '9'
}

/// The value of the decimal numeral `s`, read from its first character on.
pub open spec fn digits_value(s: Seq<char>) -> nat
    decreases s.len(),
{
    if s.len() == 0 {
        0
    } else {
        digits_value(s.drop_last()) * 10 + (s.last() as int - '0' as int) as nat
    }
}

/// The array index that a decoded segment names: a non-empty run of decimal
/// digits, with no sign, whose value fits in a `usize`.
pub open spec fn array_index(s: Seq<char>) -> Option<nat> {
    if s.len() > 0 && (forall|i: int| 0 <= i < s.len() ==> is_digit(#[trigger] s[i]))
        && digits_value(s) <= usize::MAX {
        Some(digits_value(s))
    } else {
        None
    }
}

proof fn lemma_digits_value_prefix(s: Seq<char>, k: int)
    requires
        0 <= k <= s.len(),
        forall|i: int| 0 <= i < s.len() ==> is_digit(#[trigger] s[i]),
    ensures
        digits_value(s.take(k)) <= digits_value(s),
    decreases s.len(),
{
    if k == s.len() {
        assert(s.take(k) =~= s);
    } else {
        let t = s.drop_last();
        assert(s.take(k) =~= t.take(k));
        assert forall|i: int| 0 <= i < t.len() implies is_digit(#[trigger] t[i]) by {
            assert(t[i] == s[i]);
        }
        lemma_digits_value_prefix(t, k);
    }
}

/// Reads a decoded segment as an array index: decimal digits only, no sign, no
/// spaces, at least one digit, and a value that fits in a `usize`.
pub fn parse_index(s: &str) -> (r: Option<usize>)
    ensures
        match r {
            Some(i) => array_index(s@) == Some(i as nat),
            None => array_index(s@) is None,
        },
{
    let cs = chars_of(s);
    let n = cs.len();
    if n == 0 {
        return None;
    }
    let mut v: usize = 0;
    let mut i: usize = 0;
    assert(s@.take(0) =~= Seq::<char>::empty());
    while i < n
        invariant
            cs@ == s@,
            n == s@.len(),
            i <= n,
            v as nat == digits_value(s@.take(i as int)),
            forall|j: int| 0 <= j < i ==> is_digit(#[trigger] s@[j]),
        decreases n - i,
    {
        let c = cs[i];
        if !('0' <= c && c <= '9') {
            return None;
        }
        let d = (c as u32 - '0' as u32) as usize;
        assert(s@.take(i + 1).drop_last() =~= s@.take(i as int));
        let next = match v.checked_mul(10) {
            Some(w) => w.checked_add(d),
            None => None,
        };
        match next {
            Some(w) => {
                v = w;
            },
            None => {
                proof {
                    if forall|j: int| 0 <= j < s@.len() ==> is_digit(#[trigger] s@[j]) {
                        lemma_digits_value_prefix(s@, i + 1);
                    }
                }
                return None;
            },
        }
        i = i + 1;
    }
    assert(s@.take(n as int) =~= s@);
    Some(v)
}

} // verus!
