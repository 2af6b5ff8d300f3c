//! Text helpers: case folding, substring search over folded text, and the
//! single-quote escaping used by the canonical graph export.

use vstd::prelude::*;

verus! {

/// The lower-case folding of a character sequence, as Unicode defines it.
pub uninterp spec fn lower_of(s: Seq<char>) -> Seq<char>;

/// Relies on str::to_lowercase: the result depends on the characters alone.
#[verifier::external_body]
pub fn lowercase(s: &str) -> (r: String)
    ensures
        r@ == lower_of(s@),
        s@.len() == 0 ==> r@.len() == 0,
{
    s.to_lowercase()
}

/// `needle` occurs in `hay` starting at position `i`.
pub open spec fn occurs_at(hay: Seq<char>, needle: Seq<char>, i: int) -> bool {
    0 <= i && i + needle.len() <= hay.len() && hay.subrange(i, i + needle.len()) == needle
}

/// `needle` occurs somewhere in `hay`.
pub open spec fn contains_seq(hay: Seq<char>, needle: Seq<char>) -> bool {
    exists|i: int| occurs_at(hay, needle, i)
}

/// Whether `needle` occurs in `hay` starting at position `i`.
fn matches_at(hay: &str, needle: &str, i: usize, hay_len: usize, needle_len: usize) -> (r: bool)
    requires
        hay_len == hay@.len(),
        needle_len == needle@.len(),
        i + needle_len <= hay_len,
    ensures
        r == occurs_at(hay@, needle@, i as int),
{
    let mut j: usize = 0;
    while j < needle_len
        invariant
            hay_len == hay@.len(),
            needle_len == needle@.len(),
            i + needle_len <= hay_len,
            j <= needle_len,
            forall|m: int| 0 <= m < j ==> hay@[i + m] == needle@[m],
        decreases needle_len - j,
    {
        if hay.get_char(i + j) != needle.get_char(j) {
            assert(hay@.subrange(i as int, i + needle@.len())[j as int] != needle@[j as int]);
            return false;
        }
        j += 1;
    }
    assert(hay@.subrange(i as int, i + needle@.len()) =~= needle@);
    true
}

/// Whether `needle` occurs anywhere in `hay`, by scanning every start position.
fn contains_chars(hay: &str, needle: &str) -> (r: bool)
    ensures
        r == contains_seq(hay@, needle@),
{
    let hay_len = hay.unicode_len();
    let needle_len = needle.unicode_len();
    if needle_len > hay_len {
        assert(forall|i: int| !occurs_at(hay@, needle@, i));
        return false;
    }
    if needle_len == 0 {
        assert(hay@.subrange(0, 0) =~= needle@);
        assert(occurs_at(hay@, needle@, 0));
        return true;
    }
    let mut i: usize = 0;
    while i <= hay_len - needle_len
        invariant
            hay_len == hay@.len(),
            needle_len == needle@.len(),
            0 < needle_len <= hay_len,
            i <= hay_len - needle_len + 1,
            forall|m: int| 0 <= m < i ==> !occurs_at(hay@, needle@, m),
        decreases hay_len - i,
    {
        if matches_at(hay, needle, i, hay_len, needle_len) {
            return true;
        }
        i += 1;
    }
    assert(forall|m: int| !occurs_at(hay@, needle@, m));
    false
}

/// Whether `query` occurs in `text` when both are folded to lower case.
pub fn contains_ci(text: &str, query: &str) -> (r: bool)
    ensures
        r == contains_seq(lower_of(text@), lower_of(query@)),
{
    let t = lowercase(text);
    let q = lowercase(query);
    contains_chars(t.as_str(), q.as_str())
}

/// Each single quote becomes a backslash-quote pair; all else is unchanged.
pub open spec fn escape_quotes(s: Seq<char>) -> Seq<char>
    decreases s.len(),
{
    if s.len() == 0 {
        Seq::empty()
    } else {
        (if s[0] == '\'' {
            seq!['\\', '\'']
        } else {
            seq![s[0]]
        }) + escape_quotes(s.drop_first())
    }
}

/// Escaping distributes over concatenation.
proof fn lemma_escape_concat(a: Seq<char>, b: Seq<char>)
    ensures
        escape_quotes(a + b) == escape_quotes(a) + escape_quotes(b),
    decreases a.len(),
{
    if a.len() == 0 {
        assert(a + b =~= b);
        assert(escape_quotes(a) + escape_quotes(b) =~= escape_quotes(b));
    } else {
        lemma_escape_concat(a.drop_first(), b);
        assert((a + b).drop_first() =~= a.drop_first() + b);
        assert(escape_quotes(a + b) =~= escape_quotes(a) + escape_quotes(b));
    }
}

/// A sequence without single quotes escapes to itself.
proof fn lemma_escape_no_quote(s: Seq<char>)
    requires
        forall|i: int| 0 <= i < s.len() ==> s[i] != '\'',
    ensures
        escape_quotes(s) == s,
    decreases s.len(),
{
    if s.len() > 0 {
        lemma_escape_no_quote(s.drop_first());
        assert(escape_quotes(s) =~= s);
    }
}

/// Appends `v` to `out` with every single quote escaped.
pub fn append_escaped(out: &mut String, v: &str)
    ensures
        final(out)@ == old(out)@ + escape_quotes(v@),
{
    let len = v.unicode_len();
    let mut i: usize = 0;
    let mut run: usize = 0;
    while i < len
        invariant
            len == v@.len(),
            run <= i <= len,
            out@ == old(out)@ + escape_quotes(v@.take(run as int)),
            forall|m: int| run <= m < i ==> v@[m] != '\'',
        decreases len - i,
    {
        if v.get_char(i) == '\'' {
            let piece = v.substring_char(run, i);
            out.append(piece);
            out.append("\\'");
            proof {
                reveal_strlit("\\'");
                lemma_escape_no_quote(v@.subrange(run as int, i as int));
                lemma_escape_concat(v@.take(i as int), v@.subrange(i as int, i + 1));
                assert(v@.take(run as int) + v@.subrange(run as int, i as int) =~= v@.take(
                    i as int,
                ));
                lemma_escape_concat(v@.take(run as int), v@.subrange(run as int, i as int));
                assert(v@.subrange(i as int, i + 1) =~= seq![v@[i as int]]);
                assert(seq![v@[i as int]].drop_first() =~= Seq::<char>::empty());
                assert(escape_quotes(Seq::<char>::empty()) =~= Seq::<char>::empty());
                assert(escape_quotes(seq![v@[i as int]]) =~= seq!['\\', '\'']);
                assert(("\\'")@ =~= seq!['\\', '\'']);
                assert(v@.take(i as int) + v@.subrange(i as int, i + 1) =~= v@.take(i + 1));
                assert(out@ =~= old(out)@ + escape_quotes(v@.take(i + 1)));
            }
            run = i + 1;
        }
        i += 1;
    }
    let piece = v.substring_char(run, len);
    out.append(piece);
    proof {
        lemma_escape_no_quote(v@.subrange(run as int, len as int));
        lemma_escape_concat(v@.take(run as int), v@.subrange(run as int, len as int));
        assert(v@.take(run as int) + v@.subrange(run as int, len as int) =~= v@.take(len as int));
        assert(v@.take(len as int) =~= v@);
    }
}


/// Strict lexicographic order on character sequences by code point; a
/// proper prefix comes first.
pub open spec fn str_lt(a: Seq<char>, b: Seq<char>) -> bool
    decreases a.len(),
{
    if b.len() == 0 {
        false
    } else if a.len() == 0 {
        true
    } else if a[0] != b[0] {
        (a[0] as u32) < (b[0] as u32)
    } else {
        str_lt(a.drop_first(), b.drop_first())
    }
}

/// Non-strict lexicographic order.
pub open spec fn str_le(a: Seq<char>, b: Seq<char>) -> bool {
    str_lt(a, b) || a == b
}

/// Distinct characters have distinct code points.
proof fn lemma_char_cast_injective(c1: char, c2: char)
    requires
        (c1 as u32) == (c2 as u32),
    ensures
        c1 == c2,
{
    assert(((c1 as u32) as char) == c1);
    assert(((c2 as u32) as char) == c2);
}

/// The order is connected and asymmetric: of two sequences, exactly one of
/// less-than, equal, greater-than holds.
pub proof fn lemma_str_lt_connected(a: Seq<char>, b: Seq<char>)
    ensures
        !(str_lt(a, b) && str_lt(b, a)),
        str_lt(a, b) || str_lt(b, a) || a == b,
        str_lt(a, b) ==> a != b,
    decreases a.len(),
{
    if a.len() == 0 && b.len() == 0 {
        assert(a =~= b);
    } else if a.len() > 0 && b.len() > 0 {
        if a[0] == b[0] {
            lemma_str_lt_connected(a.drop_first(), b.drop_first());
            if !str_lt(a, b) && !str_lt(b, a) {
                assert(a.drop_first() == b.drop_first());
                assert forall|i: int| 0 <= i < a.len() implies a[i] == b[i] by {
                    if i > 0 {
                        assert(a.drop_first()[i - 1] == b.drop_first()[i - 1]);
                    }
                }
                assert(a =~= b);
            }
            if str_lt(a, b) {
                assert(a.drop_first() != b.drop_first());
                assert(a != b);
            }
        } else {
            if (a[0] as u32) == (b[0] as u32) {
                lemma_char_cast_injective(a[0], b[0]);
            }
            assert((a[0] as u32) != (b[0] as u32));
        }
    }
}

/// Two sequences that agree on a prefix compare as their remainders do.
proof fn lemma_str_lt_skip(a: Seq<char>, b: Seq<char>, i: int)
    requires
        0 <= i <= a.len(),
        i <= b.len(),
        forall|j: int| 0 <= j < i ==> a[j] == b[j],
    ensures
        str_lt(a, b) == str_lt(a.skip(i), b.skip(i)),
    decreases i,
{
    if i > 0 {
        assert(a.len() > 0 && b.len() > 0);
        assert(a[0] == b[0]);
        assert forall|j: int| 0 <= j < i - 1 implies a.drop_first()[j] == b.drop_first()[j] by {
            assert(a.drop_first()[j] == a[j + 1]);
            assert(b.drop_first()[j] == b[j + 1]);
        }
        lemma_str_lt_skip(a.drop_first(), b.drop_first(), i - 1);
        assert(a.drop_first().skip(i - 1) =~= a.skip(i));
        assert(b.drop_first().skip(i - 1) =~= b.skip(i));
    } else {
        assert(a.skip(0) =~= a);
        assert(b.skip(0) =~= b);
    }
}

/// Whether `a` comes strictly before `b` in lexicographic order.
pub fn str_less(a: &str, b: &str) -> (r: bool)
    ensures
        r == str_lt(a@, b@),
{
    let alen = a.unicode_len();
    let blen = b.unicode_len();
    let mut i: usize = 0;
    while i < alen && i < blen
        invariant
            alen == a@.len(),
            blen == b@.len(),
            i <= alen,
            i <= blen,
            forall|j: int| 0 <= j < i ==> a@[j] == b@[j],
        decreases alen - i,
    {
        let ca = a.get_char(i);
        let cb = b.get_char(i);
        if (ca as u32) < (cb as u32) {
            proof {
                lemma_str_lt_skip(a@, b@, i as int);
                assert(a@.skip(i as int)[0] == ca);
                assert(b@.skip(i as int)[0] == cb);
            }
            return true;
        }
        if (cb as u32) < (ca as u32) {
            proof {
                lemma_str_lt_skip(a@, b@, i as int);
                assert(a@.skip(i as int)[0] == ca);
                assert(b@.skip(i as int)[0] == cb);
            }
            return false;
        }
        proof {
            assert(a@[i as int] == b@[i as int]);
        }
        i += 1;
    }
    proof {
        if i >= alen {
            lemma_str_lt_skip(a@, b@, alen as int);
            assert(a@.skip(alen as int).len() == 0);
        } else {
            lemma_str_lt_skip(a@, b@, blen as int);
            assert(b@.skip(blen as int).len() == 0);
            assert(a@.skip(blen as int).len() > 0);
        }
    }
    alen < blen
}

} // verus!
