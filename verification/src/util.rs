use vstd::prelude::*;

verus! {

/// `s` followed by `s` backwards without its last element: `[1, 2, 3]` becomes
/// `[1, 2, 3, 2, 1]`.
pub open spec fn mirrored<T>(s: Seq<T>) -> Seq<T> {
    if s.len() == 0 {
        s
    } else {
        s + s.drop_last().reverse()
    }
}

/// Mirrors the given elements around the last one, for example `[1, 2, 3]` gives
/// `[1, 2, 3, 2, 1]`.
pub fn mirror<T: Copy>(items: &[T]) -> (r: Vec<T>)
    ensures
        r@ == mirrored(items@),
{
    let n = items.len();
    let mut out: Vec<T> = Vec::new();
    let mut i: usize = 0;
    while i < n
        invariant
            n == items.len(),
            i <= n,
            out@ == items@.subrange(0, i as int),
        decreases n - i,
    {
        out.push(items[i]);
        i = i + 1;
        assert(items@.subrange(0, i as int) == items@.subrange(0, i - 1).push(items@[i - 1]));
    }
    assert(items@.subrange(0, n as int) == items@);
    if n == 0 {
        return out;
    }
    let mut j: usize = n - 1;
    while j > 0
        invariant
            n == items.len(),
            n > 0,
            j < n,
            out@ == items@ + items@.drop_last().reverse().subrange(0, (n - 1 - j) as int),
        decreases j,
    {
        j = j - 1;
        out.push(items[j]);
        proof {
            let r = items@.drop_last().reverse();
            assert(r[(n - 2 - j) as int] == items@[j as int]);
            assert(r.subrange(0, (n - 1 - j) as int) == r.subrange(0, (n - 2 - j) as int).push(
                items@[j as int],
            ));
        }
    }
    assert(items@.drop_last().reverse().subrange(0, (n - 1) as int) == items@.drop_last().reverse());
    out
}

/// Calls `String::push`.
#[verifier::external_body]
pub(crate) fn push_char(s: &mut String, ch: char)
    ensures
        final(s)@ == old(s)@.push(ch),
{
    s.push(ch);
}

/// The characters of `s`, in order.
pub fn chars_of(s: &str) -> (r: Vec<char>)
    ensures
        r@ == s@,
{
    let mut out: Vec<char> = Vec::new();
    for ch in it: s.chars()
        invariant
            out@ == it.seq().subrange(0, it.index() as int),
    {
        out.push(ch);
        assert(it.seq().subrange(0, it.index() + 1) == it.seq().subrange(0, it.index() as int).push(ch));
    }
    out
}

/// A string holding the characters `chars`.
pub fn string_of(chars: &[char]) -> (r: String)
    ensures
        r@ == chars@,
{
    let mut s = String::new();
    let mut i: usize = 0;
    while i < chars.len()
        invariant
            i <= chars.len(),
            s@ == chars@.subrange(0, i as int),
        decreases chars.len() - i,
    {
        push_char(&mut s, chars[i]);
        i = i + 1;
        assert(chars@.subrange(0, i as int) == chars@.subrange(0, i - 1).push(chars@[i - 1]));
    }
    assert(chars@.subrange(0, chars.len() as int) == chars@);
    s
}


/// A mirrored sequence reads the same backwards, and a non-empty one has one element
/// fewer than twice as many.
pub proof fn lemma_mirrored_palindrome<T>(s: Seq<T>)
    ensures
        mirrored(s).reverse() == mirrored(s),
        s.len() > 0 ==> mirrored(s).len() == 2 * s.len() - 1,
{
    if s.len() > 0 {
        let m = mirrored(s);
        let n = s.len() as int;
        assert forall|i: int| 0 <= i < m.len() implies #[trigger] m.reverse()[i] == m[i] by {
            let j = m.len() - 1 - i;
            if i < n {
                if j < n {
                    assert(i == n - 1 && j == n - 1);
                } else {
                    assert(m[j] == s.drop_last()[n - 2 - (j - n)]);
                }
            } else {
                assert(m[i] == s.drop_last()[n - 2 - (i - n)]);
            }
        }
        assert(m.reverse() =~= m);
    }
}


/// Appends the characters of `t` to `s`.
pub fn push_text(s: &mut String, t: &str)
    ensures
        final(s)@ == old(s)@ + t@,
{
    let chars = chars_of(t);
    let mut i: usize = 0;
    while i < chars.len()
        invariant
            i <= chars.len(),
            chars@ == t@,
            s@ == old(s)@ + t@.take(i as int),
        decreases chars.len() - i,
    {
        push_char(s, chars[i]);
        i = i + 1;
        assert(t@.take(i as int) == t@.take(i - 1).push(t@[i - 1]));
    }
    assert(t@.take(t@.len() as int) == t@);
}

} // verus!
