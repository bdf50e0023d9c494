//! Verified string utilities: equality, lexicographic order, substring
//! and affix tests, basename extraction, and a trusted lowercasing call.

use vstd::prelude::*;

verus! {

/// `a` is lexicographically at or before `b`, comparing characters by
/// code point, the order in which Rust compares `str` values.
pub open spec fn lex_leq(a: Seq<char>, b: Seq<char>) -> bool
    decreases a.len(),
{
    if a.len() == 0 {
        true
    } else if b.len() == 0 {
        false
    } else if (a[0] as u32) == (b[0] as u32) {
        lex_leq(a.skip(1), b.skip(1))
    } else {
        (a[0] as u32) < (b[0] as u32)
    }
}

/// The order `lex_leq` is total.
pub proof fn lemma_lex_leq_total(a: Seq<char>, b: Seq<char>)
    ensures
        lex_leq(a, b) || lex_leq(b, a),
    decreases a.len(),
{
    if a.len() == 0 {
    } else if b.len() == 0 {
    } else if (a[0] as u32) == (b[0] as u32) {
        lemma_lex_leq_total(a.skip(1), b.skip(1));
    }
}

/// The order `lex_leq` is transitive.
pub proof fn lemma_lex_leq_trans(a: Seq<char>, b: Seq<char>, c: Seq<char>)
    requires
        lex_leq(a, b),
        lex_leq(b, c),
    ensures
        lex_leq(a, c),
    decreases a.len(),
{
    if a.len() == 0 {
    } else if b.len() == 0 || c.len() == 0 {
    } else if (a[0] as u32) == (b[0] as u32) && (b[0] as u32) == (c[0] as u32) {
        lemma_lex_leq_trans(a.skip(1), b.skip(1), c.skip(1));
    }
}

/// The two strings hold the same characters.
pub fn str_eq(a: &str, b: &str) -> (r: bool)
    ensures
        r == (a@ == b@),
{
    let alen = a.unicode_len();
    let blen = b.unicode_len();
    if alen != blen {
        return false;
    }
    let mut i: usize = 0;
    while i < alen
        invariant
            alen == a@.len(),
            alen == b@.len(),
            i <= alen,
            forall|j: int| 0 <= j < i ==> a@[j] == b@[j],
        decreases alen - i,
    {
        if a.get_char(i) != b.get_char(i) {
            return false;
        }
        i += 1;
    }
    proof {
        assert(a@ =~= b@);
    }
    true
}

/// `a` compares at or before `b` in code-point order.
pub fn str_leq(a: &str, b: &str) -> (r: bool)
    ensures
        r == lex_leq(a@, b@),
{
    let alen = a.unicode_len();
    let blen = b.unicode_len();
    let mut i: usize = 0;
    proof {
        assert(a@.skip(0) =~= a@);
        assert(b@.skip(0) =~= b@);
    }
    loop
        invariant
            alen == a@.len(),
            blen == b@.len(),
            i <= alen,
            i <= blen,
            lex_leq(a@, b@) == lex_leq(a@.skip(i as int), b@.skip(i as int)),
        decreases alen - i,
    {
        if i == alen {
            return true;
        }
        if i == blen {
            return false;
        }
        let ca = a.get_char(i) as u32;
        let cb = b.get_char(i) as u32;
        if ca != cb {
            return ca < cb;
        }
        proof {
            lemma_lex_leq_skip_step(a@, b@, i as int);
        }
        i += 1;
    }
}

/// When the characters at position `i` agree, dropping one more
/// character on each side leaves the comparison unchanged.
proof fn lemma_lex_leq_skip_step(a: Seq<char>, b: Seq<char>, i: int)
    requires
        0 <= i < a.len(),
        0 <= i < b.len(),
        (a[i] as u32) == (b[i] as u32),
    ensures
        lex_leq(a.skip(i), b.skip(i)) == lex_leq(a.skip(i + 1), b.skip(i + 1)),
{
    assert(a.skip(i)[0] == a[i]);
    assert(b.skip(i)[0] == b[i]);
    assert(a.skip(i).skip(1) =~= a.skip(i + 1));
    assert(b.skip(i).skip(1) =~= b.skip(i + 1));
}

/// `sub` occurs contiguously somewhere within `s`.
pub open spec fn has_substring(s: Seq<char>, sub: Seq<char>) -> bool {
    exists|i: int| 0 <= i && i + sub.len() <= s.len() && #[trigger] s.subrange(i, i + sub.len()) == sub
}

/// `pre` is an initial segment of `s`.
pub open spec fn is_prefix(s: Seq<char>, pre: Seq<char>) -> bool {
    pre.len() <= s.len() && s.subrange(0, pre.len() as int) == pre
}

/// `suf` is a final segment of `s`.
pub open spec fn is_suffix(s: Seq<char>, suf: Seq<char>) -> bool {
    suf.len() <= s.len() && s.subrange(s.len() - suf.len(), s.len() as int) == suf
}

/// `sub` occurs in `s` starting exactly at position `i`.
fn match_at(s: &str, sub: &str, i: usize, slen: usize, sublen: usize) -> (r: bool)
    requires
        slen == s@.len(),
        sublen == sub@.len(),
        i + sublen <= slen,
    ensures
        r == (s@.subrange(i as int, i + sub@.len()) == sub@),
{
    let mut j: usize = 0;
    while j < sublen
        invariant
            slen == s@.len(),
            sublen == sub@.len(),
            i + sublen <= slen,
            j <= sublen,
            forall|k: int| 0 <= k < j ==> s@[i + k] == sub@[k],
        decreases sublen - j,
    {
        if s.get_char(i + j) != sub.get_char(j) {
            proof {
                assert(s@.subrange(i as int, i + sub@.len())[j as int] != sub@[j as int]);
            }
            return false;
        }
        j += 1;
    }
    proof {
        assert(s@.subrange(i as int, i + sub@.len()) =~= sub@);
    }
    true
}

/// `sub` occurs contiguously somewhere within `s`.
pub fn str_contains(s: &str, sub: &str) -> (r: bool)
    ensures
        r == has_substring(s@, sub@),
{
    let slen = s.unicode_len();
    let sublen = sub.unicode_len();
    if sublen > slen {
        return false;
    }
    if sublen == 0 {
        proof {
            assert(s@.subrange(0, 0 + sub@.len() as int) =~= sub@);
        }
        return true;
    }
    let mut i: usize = 0;
    while i <= slen - sublen
        invariant
            slen == s@.len(),
            sublen == sub@.len(),
            0 < sublen <= slen,
            i <= slen - sublen + 1,
            forall|k: int| 0 <= k < i ==> #[trigger] s@.subrange(k, k + sub@.len()) != sub@,
        decreases slen - i,
    {
        if match_at(s, sub, i, slen, sublen) {
            return true;
        }
        i += 1;
    }
    false
}

/// `pre` is an initial segment of `s`.
pub fn str_starts_with(s: &str, pre: &str) -> (r: bool)
    ensures
        r == is_prefix(s@, pre@),
{
    let slen = s.unicode_len();
    let prelen = pre.unicode_len();
    if prelen > slen {
        return false;
    }
    match_at(s, pre, 0, slen, prelen)
}

/// `suf` is a final segment of `s`.
pub fn str_ends_with(s: &str, suf: &str) -> (r: bool)
    ensures
        r == is_suffix(s@, suf@),
{
    let slen = s.unicode_len();
    let suflen = suf.unicode_len();
    if suflen > slen {
        return false;
    }
    match_at(s, suf, slen - suflen, slen, suflen)
}

/// The characters after the last `'/'` of `p`; all of `p` when it has
/// no `'/'`; empty when `p` ends in `'/'` or is empty.
pub open spec fn after_last_slash(p: Seq<char>) -> Seq<char>
    decreases p.len(),
{
    if p.len() == 0 {
        p
    } else if p.last() == '/' {
        Seq::empty()
    } else {
        after_last_slash(p.drop_last()).push(p.last())
    }
}

/// The final path segment of `p`, if `p` has a non-empty one.
/// On the canonical absolute paths the resolver produces, this is the
/// directory's own name; the root path has none.
pub open spec fn basename_of(p: Seq<char>) -> Option<Seq<char>> {
    if after_last_slash(p).len() == 0 {
        None
    } else {
        Some(after_last_slash(p))
    }
}

/// The final path segment of `p`, if `p` has a non-empty one.
pub fn basename(p: &str) -> (r: Option<String>)
    ensures
        match r {
            Some(b) => basename_of(p@) == Some(b@),
            None => basename_of(p@) is None,
        },
{
    let len = p.unicode_len();
    let mut cut: usize = 0;
    let mut i: usize = 0;
    proof {
        assert(p@.subrange(0, 0) =~= after_last_slash(p@.subrange(0, 0)));
    }
    while i < len
        invariant
            len == p@.len(),
            cut <= i <= len,
            after_last_slash(p@.subrange(0, i as int)) == p@.subrange(cut as int, i as int),
        decreases len - i,
    {
        proof {
            lemma_after_last_slash_step(p@, i as int, cut as int);
        }
        if p.get_char(i) == '/' {
            cut = i + 1;
        }
        i += 1;
    }
    proof {
        assert(p@.subrange(0, len as int) =~= p@);
    }
    if cut == len {
        None
    } else {
        let seg = p.substring_char(cut, len);
        Some(seg.to_owned())
    }
}

/// Extending the scanned prefix by one character either resets the
/// segment at a `'/'` or appends the character to it.
proof fn lemma_after_last_slash_step(p: Seq<char>, i: int, cut: int)
    requires
        0 <= cut <= i < p.len(),
        after_last_slash(p.subrange(0, i)) == p.subrange(cut, i),
    ensures
        p[i] == '/' ==> after_last_slash(p.subrange(0, i + 1)) == p.subrange(i + 1, i + 1),
        p[i] != '/' ==> after_last_slash(p.subrange(0, i + 1)) == p.subrange(cut, i + 1),
{
    let q = p.subrange(0, i + 1);
    assert(q.last() == p[i]);
    assert(q.drop_last() =~= p.subrange(0, i));
    if p[i] == '/' {
        assert(after_last_slash(q) =~= p.subrange(i + 1, i + 1));
    } else {
        assert(after_last_slash(q) =~= p.subrange(cut, i).push(p[i]));
        assert(p.subrange(cut, i).push(p[i]) =~= p.subrange(cut, i + 1));
    }
}

/// `c` is Unicode white space, the class that `str::trim` strips:
/// the ASCII spacing controls and space, next line, no-break space,
/// ogham space mark, the en-quad to hair-space range, the line and
/// paragraph separators, narrow no-break space, medium mathematical
/// space, and ideographic space.
pub open spec fn is_space(c: char) -> bool {
    ||| c as u32 == 0x09
    ||| c as u32 == 0x0A
    ||| c as u32 == 0x0B
    ||| c as u32 == 0x0C
    ||| c as u32 == 0x0D
    ||| c as u32 == 0x20
    ||| c as u32 == 0x85
    ||| c as u32 == 0xA0
    ||| c as u32 == 0x1680
    ||| (0x2000 <= c as u32 && c as u32 <= 0x200A)
    ||| c as u32 == 0x2028
    ||| c as u32 == 0x2029
    ||| c as u32 == 0x202F
    ||| c as u32 == 0x205F
    ||| c as u32 == 0x3000
}

/// `c` is Unicode white space.
fn char_is_space(c: char) -> (r: bool)
    ensures
        r == is_space(c),
{
    let u = c as u32;
    (0x09 <= u && u <= 0x0D) || u == 0x20 || u == 0x85 || u == 0xA0 || u == 0x1680 || (0x2000 <= u
        && u <= 0x200A) || u == 0x2028 || u == 0x2029 || u == 0x202F || u == 0x205F || u == 0x3000
}

/// `s` without its leading white space.
pub open spec fn trim_front(s: Seq<char>) -> Seq<char>
    decreases s.len(),
{
    if s.len() > 0 && is_space(s[0]) {
        trim_front(s.skip(1))
    } else {
        s
    }
}

/// `s` without its trailing white space.
pub open spec fn trim_back(s: Seq<char>) -> Seq<char>
    decreases s.len(),
{
    if s.len() > 0 && is_space(s.last()) {
        trim_back(s.drop_last())
    } else {
        s
    }
}

/// `s` without leading and trailing white space: what `str::trim` keeps.
pub open spec fn trimmed(s: Seq<char>) -> Seq<char> {
    trim_back(trim_front(s))
}

/// A copy of `s` without its leading and trailing white space.
pub fn trim(s: &str) -> (r: String)
    ensures
        r@ == trimmed(s@),
{
    let len = s.unicode_len();
    let mut start: usize = 0;
    proof {
        assert(s@.skip(0) =~= s@);
    }
    loop
        invariant
            len == s@.len(),
            start <= len,
            trim_front(s@) == trim_front(s@.skip(start as int)),
        ensures
            start <= len,
            trim_front(s@) == s@.skip(start as int),
        decreases len - start,
    {
        if start == len {
            proof {
                assert(s@.skip(start as int) =~= Seq::<char>::empty());
            }
            break ;
        }
        if !char_is_space(s.get_char(start)) {
            proof {
                assert(s@.skip(start as int)[0] == s@[start as int]);
            }
            break ;
        }
        proof {
            assert(s@.skip(start as int)[0] == s@[start as int]);
            assert(s@.skip(start as int).skip(1) =~= s@.skip(start + 1));
        }
        start += 1;
    }
    let mut end: usize = len;
    proof {
        assert(s@.subrange(start as int, len as int) =~= s@.skip(start as int));
    }
    loop
        invariant
            len == s@.len(),
            start <= end <= len,
            trim_back(s@.skip(start as int)) == trim_back(s@.subrange(start as int, end as int)),
        ensures
            start <= end <= len,
            trim_back(s@.skip(start as int)) == s@.subrange(start as int, end as int),
        decreases end,
    {
        if end == start {
            proof {
                assert(s@.subrange(start as int, end as int) =~= Seq::<char>::empty());
            }
            break ;
        }
        if !char_is_space(s.get_char(end - 1)) {
            proof {
                assert(s@.subrange(start as int, end as int).last() == s@[end - 1]);
            }
            break ;
        }
        proof {
            assert(s@.subrange(start as int, end as int).last() == s@[end - 1]);
            assert(s@.subrange(start as int, end as int).drop_last() =~= s@.subrange(
                start as int,
                end - 1,
            ));
        }
        end -= 1;
    }
    let kept = s.substring_char(start, end);
    kept.to_owned()
}

/// The character sequence that `str::to_lowercase` produces for `s`.
pub uninterp spec fn lower_of(s: Seq<char>) -> Seq<char>;

/// Relies on `str::to_lowercase`: its result is a function of the
/// characters of `s` alone, and an empty string stays empty.
#[verifier::external_body]
pub fn lowercase(s: &str) -> (r: String)
    ensures
        r@ == lower_of(s@),
        s@.len() == 0 ==> r@.len() == 0,
{
    s.to_lowercase()
}

} // verus!
