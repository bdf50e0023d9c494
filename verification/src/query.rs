//! The query engine: name filters, sorting, and the listing view.

use vstd::prelude::*;

use crate::store::Bookmarks;
use crate::strutil::{
    has_substring, is_prefix, is_suffix, lemma_lex_leq_total, lemma_lex_leq_trans, lex_leq,
    str_contains, str_ends_with, str_leq, str_starts_with,
};

verus! {

/// Optional name filters for listing: substring, prefix and suffix.
pub struct Filters {
    pub filter: Option<String>,
    pub start: Option<String>,
    pub end: Option<String>,
}

impl Filters {
    /// At least one filter is given.
    pub open spec fn spec_any(self) -> bool {
        self.filter is Some || self.start is Some || self.end is Some
    }

    /// At least one filter is given.
    pub fn any(&self) -> (r: bool)
        ensures
            r == self.spec_any(),
    {
        self.filter.is_some() || self.start.is_some() || self.end.is_some()
    }

    /// A name passes when every given filter matches it: the
    /// substring, prefix and suffix tests are conjoined.
    pub open spec fn passes(self, name: Seq<char>) -> bool {
        &&& (self.filter matches Some(f) ==> has_substring(name, f@))
        &&& (self.start matches Some(p) ==> is_prefix(name, p@))
        &&& (self.end matches Some(sfx) ==> is_suffix(name, sfx@))
    }

    /// Whether `name` passes every given filter.
    pub fn matches_name(&self, name: &str) -> (r: bool)
        ensures
            r == self.passes(name@),
    {
        let ok_filter = match &self.filter {
            Some(f) => str_contains(name, f.as_str()),
            None => true,
        };
        let ok_start = match &self.start {
            Some(p) => str_starts_with(name, p.as_str()),
            None => true,
        };
        let ok_end = match &self.end {
            Some(sfx) => str_ends_with(name, sfx.as_str()),
            None => true,
        };
        ok_filter && ok_start && ok_end
    }
}

/// The entries whose name passes every given filter, in order.
pub open spec fn filtered(s: Seq<(String, String)>, f: Filters) -> Seq<(String, String)>
    decreases s.len(),
{
    if s.len() == 0 {
        Seq::empty()
    } else if f.passes(s.last().0@) {
        filtered(s.drop_last(), f).push(s.last())
    } else {
        filtered(s.drop_last(), f)
    }
}

/// Extending a prefix by one entry extends its filtering by that entry
/// exactly when the entry's name passes.
proof fn lemma_filtered_step(s: Seq<(String, String)>, f: Filters, i: int)
    requires
        0 <= i < s.len(),
    ensures
        f.passes(s[i].0@) ==> filtered(s.take(i + 1), f) == filtered(s.take(i), f).push(s[i]),
        !f.passes(s[i].0@) ==> filtered(s.take(i + 1), f) == filtered(s.take(i), f),
{
    let sp = s.take(i + 1);
    assert(sp.last() == s[i]);
    assert(sp.drop_last() =~= s.take(i));
}

/// With no filter given, every entry passes.
proof fn lemma_filtered_all(s: Seq<(String, String)>, f: Filters)
    requires
        !f.spec_any(),
    ensures
        filtered(s, f) == s,
    decreases s.len(),
{
    if s.len() == 0 {
        assert(filtered(s, f) =~= s);
    } else {
        lemma_filtered_all(s.drop_last(), f);
        assert(filtered(s, f) =~= s.drop_last().push(s.last()));
        assert(s.drop_last().push(s.last()) =~= s);
    }
}

/// Keep only the entries whose name passes every given filter, in order.
pub fn filter_list(bookmarks: &mut Vec<(String, String)>, filters: &Filters)
    ensures
        final(bookmarks)@ == filtered(old(bookmarks)@, *filters),
{
    let ghost orig = bookmarks@;
    let mut out: Vec<(String, String)> = Vec::new();
    let n = bookmarks.len();
    let mut i: usize = 0;
    proof {
        assert(orig.take(0) =~= Seq::<(String, String)>::empty());
    }
    while i < n
        invariant
            n == orig.len(),
            i <= n,
            bookmarks@ == orig,
            out@ == filtered(orig.take(i as int), *filters),
        decreases n - i,
    {
        proof {
            lemma_filtered_step(orig, *filters, i as int);
        }
        if filters.matches_name(bookmarks[i].0.as_str()) {
            let e = (bookmarks[i].0.clone(), bookmarks[i].1.clone());
            proof {
                assert(e == orig[i as int]);
            }
            out.push(e);
        }
        i += 1;
    }
    proof {
        assert(orig.take(n as int) =~= orig);
    }
    *bookmarks = out;
}

/// The sort key of an entry: its path when `by_path`, else its name.
pub open spec fn key_of(e: (String, String), by_path: bool) -> Seq<char> {
    if by_path {
        e.1@
    } else {
        e.0@
    }
}

/// Entries stand in ascending code-point order of their sort key.
pub open spec fn sorted_entries(s: Seq<(String, String)>, by_path: bool) -> bool {
    forall|i: int, j: int|
        0 <= i < j < s.len() ==> lex_leq(
            key_of(#[trigger] s[i], by_path),
            key_of(#[trigger] s[j], by_path),
        )
}

/// The first entry's key compares at or before the second's.
fn entry_leq(a: &(String, String), b: &(String, String), by_path: bool) -> (r: bool)
    ensures
        r == lex_leq(key_of(*a, by_path), key_of(*b, by_path)),
{
    if by_path {
        str_leq(a.1.as_str(), b.1.as_str())
    } else {
        str_leq(a.0.as_str(), b.0.as_str())
    }
}

/// Sort entries by name, or by path, in ascending code-point order,
/// keeping exactly the same entries.
pub fn sort_entries(entries: &mut Vec<(String, String)>, by_path: bool)
    ensures
        sorted_entries(final(entries)@, by_path),
        final(entries)@.to_multiset() == old(entries)@.to_multiset(),
{
    let ghost orig = entries@;
    let mut out: Vec<(String, String)> = Vec::new();
    let n = entries.len();
    let mut i: usize = 0;
    proof {
        assert(orig.take(0) =~= Seq::<(String, String)>::empty());
    }
    while i < n
        invariant
            n == orig.len(),
            i <= n,
            entries@ == orig,
            sorted_entries(out@, by_path),
            out@.to_multiset() == orig.take(i as int).to_multiset(),
        decreases n - i,
    {
        let e = (entries[i].0.clone(), entries[i].1.clone());
        proof {
            assert(e == orig[i as int]);
        }
        let ghost ekey = key_of(e, by_path);
        let mut pos: usize = 0;
        loop
            invariant
                pos <= out@.len(),
                ekey == key_of(e, by_path),
                forall|j: int|
                    0 <= j < pos ==> lex_leq(key_of(#[trigger] out@[j], by_path), ekey),
            ensures
                pos <= out@.len(),
                forall|j: int|
                    0 <= j < pos ==> lex_leq(key_of(#[trigger] out@[j], by_path), ekey),
                pos < out@.len() ==> !lex_leq(key_of(out@[pos as int], by_path), ekey),
            decreases out@.len() - pos,
        {
            if pos == out.len() {
                break ;
            }
            if !entry_leq(&out[pos], &e, by_path) {
                break ;
            }
            pos += 1;
        }
        let ghost pre = out@;
        out.insert(pos, e);
        proof {
            vstd::seq_lib::to_multiset_insert(pre, pos as int, e);
            vstd::seq_lib::to_multiset_build(orig.take(i as int), orig[i as int]);
            assert(orig.take(i + 1) =~= orig.take(i as int).push(orig[i as int]));
            assert(out@.to_multiset() == orig.take(i + 1).to_multiset());
            pre.insert_ensures(pos as int, e);
            assert forall|a: int, b: int| 0 <= a < b < out@.len() implies lex_leq(
                key_of(#[trigger] out@[a], by_path),
                key_of(#[trigger] out@[b], by_path),
            ) by {
                if a < pos && b < pos {
                    assert(out@[a] == pre[a]);
                    assert(out@[b] == pre[b]);
                } else if b == pos {
                    assert(out@[a] == pre[a]);
                } else if a == pos {
                    assert(pre.insert(pos as int, e)[(b - 1) + 1] == pre[b - 1]);
                    assert(out@[b] == pre[b - 1]);
                    lemma_lex_leq_total(key_of(pre[pos as int], by_path), ekey);
                    if pos + 1 < b {
                        lemma_lex_leq_trans(
                            ekey,
                            key_of(pre[pos as int], by_path),
                            key_of(pre[b - 1], by_path),
                        );
                    }
                } else if a < pos && b > pos {
                    assert(out@[a] == pre[a]);
                    assert(pre.insert(pos as int, e)[(b - 1) + 1] == pre[b - 1]);
                    assert(out@[b] == pre[b - 1]);
                } else {
                    assert(pre.insert(pos as int, e)[(a - 1) + 1] == pre[a - 1]);
                    assert(pre.insert(pos as int, e)[(b - 1) + 1] == pre[b - 1]);
                    assert(out@[a] == pre[a - 1]);
                    assert(out@[b] == pre[b - 1]);
                }
            }
        }
        i += 1;
    }
    proof {
        assert(orig.take(n as int) =~= orig);
    }
    *entries = out;
}

/// The listing: a copy of the entries that pass the given filters,
/// sorted by name, or by path when `by_path` is set.
pub fn list(store: &Bookmarks, filters: &Filters, by_path: bool) -> (r: Vec<(String, String)>)
    ensures
        sorted_entries(r@, by_path),
        r@.to_multiset() == filtered(store.entry_seq(), *filters).to_multiset(),
{
    let mut rows = store.snapshot();
    if filters.any() {
        filter_list(&mut rows, filters);
    } else {
        proof {
            lemma_filtered_all(store.entry_seq(), *filters);
        }
    }
    sort_entries(&mut rows, by_path);
    rows
}

} // verus!
