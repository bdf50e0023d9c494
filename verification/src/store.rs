//! The bookmark store: name-to-path entries with the mark / remove /
//! purge mutations and their collision policy.

use vstd::prelude::*;

use crate::errors::{Outcome, StoreError};
use crate::strutil::{basename, basename_of, lower_of, lowercase, str_eq, trim, trimmed};

verus! {

/// The mapping that a sequence of (name, path) entries denotes; a
/// later entry wins, though a well-formed store never repeats a name.
pub open spec fn seq_to_map(s: Seq<(String, String)>) -> Map<Seq<char>, Seq<char>>
    decreases s.len(),
{
    if s.len() == 0 {
        Map::empty()
    } else {
        seq_to_map(s.drop_last()).insert(s.last().0@, s.last().1@)
    }
}

/// No bookmark name occurs twice.
pub open spec fn unique_names(s: Seq<(String, String)>) -> bool {
    forall|i: int, j: int| 0 <= i < j < s.len() ==> (#[trigger] s[i]).0@ != (#[trigger] s[j]).0@
}

/// A name is a key of the denoted map exactly when some entry holds it.
pub proof fn lemma_seq_to_map_contains(s: Seq<(String, String)>, k: Seq<char>)
    ensures
        seq_to_map(s).contains_key(k) <==> exists|i: int|
            0 <= i < s.len() && (#[trigger] s[i]).0@ == k,
    decreases s.len(),
{
    if s.len() == 0 {
    } else {
        lemma_seq_to_map_contains(s.drop_last(), k);
        if s.last().0@ == k {
            assert((s[s.len() - 1]).0@ == k);
        } else {
            if seq_to_map(s).contains_key(k) {
                let i = choose|i: int| 0 <= i < s.drop_last().len() && (#[trigger] s.drop_last()[i]).0@ == k;
                assert((s[i]).0@ == k);
            }
            if exists|i: int| 0 <= i < s.len() && (#[trigger] s[i]).0@ == k {
                let i = choose|i: int| 0 <= i < s.len() && (#[trigger] s[i]).0@ == k;
                assert((s.drop_last()[i]).0@ == k);
            }
        }
    }
}

/// With unique names, the denoted map sends each entry's name to its path.
pub proof fn lemma_seq_to_map_index(s: Seq<(String, String)>, i: int)
    requires
        unique_names(s),
        0 <= i < s.len(),
    ensures
        seq_to_map(s).contains_key(s[i].0@),
        seq_to_map(s)[s[i].0@] == s[i].1@,
    decreases s.len(),
{
    if i == s.len() - 1 {
    } else {
        assert(unique_names(s.drop_last())) by {
            assert(forall|a: int, b: int|
                0 <= a < b < s.drop_last().len() ==> (#[trigger] s.drop_last()[a]).0@
                    != (#[trigger] s.drop_last()[b]).0@) by {
                assert(forall|a: int| 0 <= a < s.len() - 1 ==> #[trigger] s.drop_last()[a] == s[a]);
            }
        }
        lemma_seq_to_map_index(s.drop_last(), i);
        assert(s.drop_last()[i] == s[i]);
        assert(s[i].0@ != s[s.len() - 1].0@);
    }
}

/// Appending an entry inserts its pair into the denoted map.
pub proof fn lemma_seq_to_map_push(s: Seq<(String, String)>, e: (String, String))
    ensures
        seq_to_map(s.push(e)) == seq_to_map(s).insert(e.0@, e.1@),
{
    assert(s.push(e).drop_last() =~= s);
    assert(s.push(e).last() == e);
}

/// Overwriting the entry that holds a name updates that name's path.
pub proof fn lemma_seq_to_map_update(s: Seq<(String, String)>, i: int, e: (String, String))
    requires
        unique_names(s),
        0 <= i < s.len(),
        s[i].0@ == e.0@,
    ensures
        seq_to_map(s.update(i, e)) == seq_to_map(s).insert(e.0@, e.1@),
    decreases s.len(),
{
    let t = s.update(i, e);
    if i == s.len() - 1 {
        assert(t.drop_last() =~= s.drop_last());
        assert(t.last() == e);
        assert(seq_to_map(s).insert(e.0@, e.1@) =~= seq_to_map(s.drop_last()).insert(e.0@, e.1@));
    } else {
        assert(unique_names(s.drop_last())) by {
            assert(forall|a: int| 0 <= a < s.len() - 1 ==> #[trigger] s.drop_last()[a] == s[a]);
        }
        lemma_seq_to_map_update(s.drop_last(), i, e);
        assert(t.drop_last() =~= s.drop_last().update(i, e));
        assert(t.last() == s.last());
        assert(s[i].0@ != s[s.len() - 1].0@);
        assert(seq_to_map(s.drop_last()).insert(e.0@, e.1@).insert(s.last().0@, s.last().1@)
            =~= seq_to_map(s.drop_last()).insert(s.last().0@, s.last().1@).insert(e.0@, e.1@));
    }
}

/// Removing the entry that holds a name removes that name from the map.
pub proof fn lemma_seq_to_map_remove(s: Seq<(String, String)>, i: int)
    requires
        unique_names(s),
        0 <= i < s.len(),
    ensures
        seq_to_map(s.remove(i)) == seq_to_map(s).remove(s[i].0@),
    decreases s.len(),
{
    let k = s[i].0@;
    if i == s.len() - 1 {
        assert(s.remove(i) =~= s.drop_last());
        lemma_seq_to_map_contains(s.drop_last(), k);
        assert(forall|a: int|
            0 <= a < s.drop_last().len() ==> (#[trigger] s.drop_last()[a]).0@ != k);
        assert(!seq_to_map(s.drop_last()).contains_key(k));
        assert(seq_to_map(s.drop_last()) =~= seq_to_map(s).remove(k));
    } else {
        assert(unique_names(s.drop_last())) by {
            assert(forall|a: int| 0 <= a < s.len() - 1 ==> #[trigger] s.drop_last()[a] == s[a]);
        }
        lemma_seq_to_map_remove(s.drop_last(), i);
        assert(s.remove(i).drop_last() =~= s.drop_last().remove(i));
        assert(s.remove(i).last() == s.last());
        assert(s[i].0@ != s[s.len() - 1].0@);
        assert(seq_to_map(s.drop_last()).remove(k).insert(s.last().0@, s.last().1@)
            =~= seq_to_map(s.drop_last()).insert(s.last().0@, s.last().1@).remove(k));
    }
}

/// Removing one entry keeps the remaining names unique.
pub proof fn lemma_unique_names_remove(s: Seq<(String, String)>, i: int)
    requires
        unique_names(s),
        0 <= i < s.len(),
    ensures
        unique_names(s.remove(i)),
{
    s.remove_ensures(i);
    assert forall|a: int, b: int| 0 <= a < b < s.remove(i).len() implies (#[trigger] s.remove(
        i,
    )[a]).0@ != (#[trigger] s.remove(i)[b]).0@ by {
        let a0 = if a < i { a } else { a + 1 };
        let b0 = if b < i { b } else { b + 1 };
        assert(s.remove(i)[a] == s[a0]);
        assert(s.remove(i)[b] == s[b0]);
    }
}

/// The reserved quick-slot name, exempt from overwrite confirmation.
pub open spec fn quick_slot() -> Seq<char> {
    "markd-temp"@
}

/// The reserved quick-slot name.
pub fn quick_slot_name() -> (r: &'static str)
    ensures
        r@ == quick_slot(),
{
    "markd-temp"
}

/// An in-memory bookmark store: (name, path) entries in stored order.
pub struct Bookmarks {
    entries: Vec<(String, String)>,
}

impl View for Bookmarks {
    type V = Map<Seq<char>, Seq<char>>;

    closed spec fn view(&self) -> Map<Seq<char>, Seq<char>> {
        seq_to_map(self.entries@)
    }
}

impl Bookmarks {
    /// The stored (name, path) entries, in order.
    pub closed spec fn entry_seq(self) -> Seq<(String, String)> {
        self.entries@
    }

    /// Every stored name occurs once.
    pub open spec fn wf(self) -> bool {
        unique_names(self.entry_seq())
    }

    /// The store denotes the mapping of its entry sequence.
    pub proof fn lemma_view_is_entry_map(self)
        ensures
            self@ == seq_to_map(self.entry_seq()),
    {
    }

    /// An empty store.
    pub fn new() -> (r: Bookmarks)
        ensures
            r.wf(),
            r.entry_seq() == Seq::<(String, String)>::empty(),
            r@ == Map::<Seq<char>, Seq<char>>::empty(),
    {
        Bookmarks { entries: Vec::new() }
    }

    /// A store holding exactly the given entries.
    pub fn from_entries(entries: Vec<(String, String)>) -> (r: Bookmarks)
        requires
            unique_names(entries@),
        ensures
            r.wf(),
            r.entry_seq() == entries@,
            r@ == seq_to_map(entries@),
    {
        Bookmarks { entries }
    }

    /// The stored entries, in order.
    pub fn entries(&self) -> (r: &Vec<(String, String)>)
        ensures
            r@ == self.entry_seq(),
    {
        &self.entries
    }

    /// How many bookmarks are stored.
    pub fn len(&self) -> (n: usize)
        ensures
            n == self.entry_seq().len(),
    {
        self.entries.len()
    }

    /// A copy of the entries, in stored order.
    pub fn snapshot(&self) -> (r: Vec<(String, String)>)
        ensures
            r@ == self.entry_seq(),
    {
        let mut out: Vec<(String, String)> = Vec::new();
        let n = self.entries.len();
        let mut i: usize = 0;
        while i < n
            invariant
                n == self.entries@.len(),
                i <= n,
                out@ == self.entries@.take(i as int),
            decreases n - i,
        {
            let e = (self.entries[i].0.clone(), self.entries[i].1.clone());
            proof {
                assert(self.entries@.take(i + 1) =~= self.entries@.take(i as int).push(
                    self.entries@[i as int],
                ));
            }
            out.push(e);
            i += 1;
        }
        proof {
            assert(self.entries@.take(n as int) =~= self.entries@);
        }
        out
    }

    /// The position of the entry holding `name`, if any.
    fn find(&self, name: &str) -> (r: Option<usize>)
        ensures
            match r {
                Some(i) => i < self.entry_seq().len() && self.entry_seq()[i as int].0@ == name@,
                None => forall|i: int|
                    0 <= i < self.entry_seq().len() ==> (#[trigger] self.entry_seq()[i]).0@
                        != name@,
            },
    {
        let n = self.entries.len();
        let mut i: usize = 0;
        while i < n
            invariant
                n == self.entries@.len(),
                i <= n,
                forall|j: int| 0 <= j < i ==> (#[trigger] self.entries@[j]).0@ != name@,
            decreases n - i,
        {
            if str_eq(self.entries[i].0.as_str(), name) {
                return Some(i);
            }
            i += 1;
        }
        None
    }

    /// Whether a bookmark with this exact (already-normalized) name exists.
    pub fn contains(&self, name: &str) -> (r: bool)
        ensures
            r == self@.contains_key(name@),
    {
        proof {
            lemma_seq_to_map_contains(self.entry_seq(), name@);
        }
        self.find(name).is_some()
    }

    /// Exact-name lookup of a bookmark's path.
    pub fn get(&self, name: &str) -> (r: Result<String, StoreError>)
        requires
            self.wf(),
        ensures
            match r {
                Ok(p) => self@.contains_key(name@) && p@ == self@[name@],
                Err(e) => e == StoreError::NotFound && !self@.contains_key(name@),
            },
    {
        proof {
            lemma_seq_to_map_contains(self.entry_seq(), name@);
        }
        match self.find(name) {
            Some(i) => {
                proof {
                    lemma_seq_to_map_index(self.entry_seq(), i as int);
                }
                Ok(self.entries[i].1.clone())
            },
            None => Err(StoreError::NotFound),
        }
    }

    /// Whether marking under `name` would ask the user first: the name
    /// is taken and is not the quick-slot sentinel.
    pub fn needs_confirmation(&self, name: &str) -> (r: bool)
        ensures
            r == (self@.contains_key(name@) && name@ != quick_slot()),
    {
        let taken = self.contains(name);
        taken && !str_eq(name, quick_slot_name())
    }

    /// Create or overwrite the entry for `name`.
    ///
    /// A fresh name is inserted. A taken name is overwritten when it is
    /// the quick-slot sentinel or when the caller's confirmation
    /// collaborator agreed (`confirm_update`); otherwise the store is
    /// left untouched and the operation reports `Cancelled`.
    pub fn mark(&mut self, name: String, path: String, confirm_update: bool) -> (o: Outcome)
        requires
            old(self).wf(),
        ensures
            final(self).wf(),
            !old(self)@.contains_key(name@) ==> {
                &&& o == Outcome::Created
                &&& final(self).entry_seq() == old(self).entry_seq().push((name, path))
            },
            old(self)@.contains_key(name@) && (name@ == quick_slot() || confirm_update) ==> {
                &&& o == Outcome::Updated
                &&& exists|i: int|
                    0 <= i < old(self).entry_seq().len() && (#[trigger] old(
                        self,
                    ).entry_seq()[i]).0@ == name@ && final(self).entry_seq() == old(
                        self,
                    ).entry_seq().update(i, (name, path))
            },
            old(self)@.contains_key(name@) && name@ != quick_slot() && !confirm_update ==> {
                &&& o == Outcome::Cancelled
                &&& *final(self) == *old(self)
            },
            o != Outcome::Cancelled ==> final(self)@ == old(self)@.insert(name@, path@),
            o == Outcome::Cancelled ==> final(self)@ == old(self)@,
    {
        proof {
            lemma_seq_to_map_contains(self.entry_seq(), name@);
        }
        match self.find(name.as_str()) {
            None => {
                proof {
                    lemma_seq_to_map_push(self.entry_seq(), (name, path));
                    let s = self.entry_seq().push((name, path));
                    assert forall|a: int, b: int| 0 <= a < b < s.len() implies (#[trigger] s[a]).0@
                        != (#[trigger] s[b]).0@ by {
                        if b < s.len() - 1 {
                            assert(s[a] == self.entry_seq()[a]);
                            assert(s[b] == self.entry_seq()[b]);
                        } else {
                            assert(s[a] == self.entry_seq()[a]);
                        }
                    }
                }
                self.entries.push((name, path));
                Outcome::Created
            },
            Some(i) => {
                if str_eq(name.as_str(), quick_slot_name()) || confirm_update {
                    proof {
                        lemma_seq_to_map_update(self.entry_seq(), i as int, (name, path));
                        let s = self.entry_seq().update(i as int, (name, path));
                        assert forall|a: int, b: int| 0 <= a < b < s.len() implies (#[trigger] s[a]).0@
                            != (#[trigger] s[b]).0@ by {
                            assert((s[a]).0@ == (self.entry_seq()[a]).0@);
                            assert((s[b]).0@ == (self.entry_seq()[b]).0@);
                        }
                    }
                    let _old_pair = self.entries.remove(i);
                    self.entries.insert(i, (name, path));
                    proof {
                        assert(self.entries@ =~= old(self).entry_seq().update(
                            i as int,
                            (name, path),
                        ));
                    }
                    Outcome::Updated
                } else {
                    Outcome::Cancelled
                }
            },
        }
    }

    /// Delete the entry for `name`, returning its path.
    pub fn remove(&mut self, name: &str) -> (r: Result<String, StoreError>)
        requires
            old(self).wf(),
        ensures
            final(self).wf(),
            match r {
                Ok(p) => {
                    &&& old(self)@.contains_key(name@)
                    &&& p@ == old(self)@[name@]
                    &&& final(self)@ == old(self)@.remove(name@)
                    &&& exists|i: int|
                        0 <= i < old(self).entry_seq().len() && (#[trigger] old(
                            self,
                        ).entry_seq()[i]).0@ == name@ && final(self).entry_seq() == old(
                            self,
                        ).entry_seq().remove(i)
                },
                Err(e) => {
                    &&& e == StoreError::NotFound
                    &&& !old(self)@.contains_key(name@)
                    &&& *final(self) == *old(self)
                },
            },
    {
        proof {
            lemma_seq_to_map_contains(self.entry_seq(), name@);
        }
        match self.find(name) {
            Some(i) => {
                proof {
                    lemma_seq_to_map_index(self.entry_seq(), i as int);
                    lemma_seq_to_map_remove(self.entry_seq(), i as int);
                    lemma_unique_names_remove(self.entry_seq(), i as int);
                }
                let pair = self.entries.remove(i);
                Ok(pair.1)
            },
            None => Err(StoreError::NotFound),
        }
    }
}

/// The entries of `s` whose flag equals `want`, in order.
pub open spec fn select_by(s: Seq<(String, String)>, flags: Seq<bool>, want: bool) -> Seq<
    (String, String),
>
    decreases s.len(),
{
    if s.len() == 0 {
        Seq::empty()
    } else if flags[s.len() - 1] == want {
        select_by(s.drop_last(), flags.drop_last(), want).push(s.last())
    } else {
        select_by(s.drop_last(), flags.drop_last(), want)
    }
}

/// Extending a prefix by one entry extends its selection by that entry
/// exactly when the entry's flag matches.
proof fn lemma_select_by_step(s: Seq<(String, String)>, flags: Seq<bool>, i: int, want: bool)
    requires
        0 <= i < s.len(),
        s.len() == flags.len(),
    ensures
        flags[i] == want ==> select_by(s.take(i + 1), flags.take(i + 1), want) == select_by(
            s.take(i),
            flags.take(i),
            want,
        ).push(s[i]),
        flags[i] != want ==> select_by(s.take(i + 1), flags.take(i + 1), want) == select_by(
            s.take(i),
            flags.take(i),
            want,
        ),
{
    let sp = s.take(i + 1);
    let fp = flags.take(i + 1);
    assert(sp.last() == s[i]);
    assert(fp.last() == flags[i]);
    assert(sp.drop_last() =~= s.take(i));
    assert(fp.drop_last() =~= flags.take(i));
}

/// Every selected entry is one of the original entries.
proof fn lemma_select_by_membership(s: Seq<(String, String)>, flags: Seq<bool>, want: bool)
    requires
        s.len() == flags.len(),
    ensures
        forall|j: int|
            0 <= j < select_by(s, flags, want).len() ==> exists|i: int|
                0 <= i < s.len() && #[trigger] select_by(s, flags, want)[j] == s[i],
    decreases s.len(),
{
    if s.len() == 0 {
    } else {
        lemma_select_by_membership(s.drop_last(), flags.drop_last(), want);
        let rest = select_by(s.drop_last(), flags.drop_last(), want);
        assert forall|j: int| 0 <= j < select_by(s, flags, want).len() implies exists|i: int|
            0 <= i < s.len() && #[trigger] select_by(s, flags, want)[j] == s[i] by {
            if j < rest.len() {
                let i = choose|i: int| 0 <= i < s.drop_last().len() && rest[j] == s.drop_last()[i];
                assert(select_by(s, flags, want)[j] == s[i]);
            } else {
                assert(select_by(s, flags, want)[j] == s[s.len() - 1]);
            }
        }
    }
}

/// Selecting from uniquely-named entries keeps the names unique.
proof fn lemma_select_by_unique(s: Seq<(String, String)>, flags: Seq<bool>, want: bool)
    requires
        unique_names(s),
        s.len() == flags.len(),
    ensures
        unique_names(select_by(s, flags, want)),
    decreases s.len(),
{
    if s.len() == 0 {
    } else {
        assert(unique_names(s.drop_last())) by {
            assert(forall|a: int| 0 <= a < s.len() - 1 ==> #[trigger] s.drop_last()[a] == s[a]);
        }
        lemma_select_by_unique(s.drop_last(), flags.drop_last(), want);
        lemma_select_by_membership(s.drop_last(), flags.drop_last(), want);
        let rest = select_by(s.drop_last(), flags.drop_last(), want);
        if flags[s.len() - 1] == want {
            assert forall|a: int, b: int|
                0 <= a < b < select_by(s, flags, want).len() implies (#[trigger] select_by(
                s,
                flags,
                want,
            )[a]).0@ != (#[trigger] select_by(s, flags, want)[b]).0@ by {
                if b == rest.len() {
                    let i = choose|i: int|
                        0 <= i < s.drop_last().len() && rest[a] == s.drop_last()[i];
                    assert(select_by(s, flags, want)[a] == s[i]);
                    assert(select_by(s, flags, want)[b] == s[s.len() - 1]);
                    assert(s[i].0@ != s[s.len() - 1].0@);
                } else {
                    assert(select_by(s, flags, want)[a] == rest[a]);
                    assert(select_by(s, flags, want)[b] == rest[b]);
                }
            }
        }
    }
}

impl Bookmarks {
    /// Drop every entry whose flag is false, keeping the rest in order,
    /// and return the dropped entries in stored order.
    ///
    /// `alive[i]` reports whether the path of entry `i` currently is an
    /// existing directory; the caller checks the live filesystem. An
    /// entry with a live flag is never removed; one without always is.
    pub fn purge(&mut self, alive: &Vec<bool>) -> (removed: Vec<(String, String)>)
        requires
            old(self).wf(),
            alive@.len() == old(self).entry_seq().len(),
        ensures
            final(self).wf(),
            final(self).entry_seq() == select_by(old(self).entry_seq(), alive@, true),
            removed@ == select_by(old(self).entry_seq(), alive@, false),
            final(self)@ == seq_to_map(final(self).entry_seq()),
    {
        let ghost orig = self.entries@;
        let mut kept: Vec<(String, String)> = Vec::new();
        let mut removed: Vec<(String, String)> = Vec::new();
        let n = self.entries.len();
        let mut i: usize = 0;
        proof {
            assert(orig.take(0) =~= Seq::<(String, String)>::empty());
            assert(alive@.take(0) =~= Seq::<bool>::empty());
        }
        while i < n
            invariant
                n == orig.len(),
                i <= n,
                self.entries@ == orig,
                alive@.len() == n,
                kept@ == select_by(orig.take(i as int), alive@.take(i as int), true),
                removed@ == select_by(orig.take(i as int), alive@.take(i as int), false),
            decreases n - i,
        {
            let e = (self.entries[i].0.clone(), self.entries[i].1.clone());
            proof {
                assert(e == orig[i as int]);
                lemma_select_by_step(orig, alive@, i as int, true);
                lemma_select_by_step(orig, alive@, i as int, false);
            }
            if alive[i] {
                kept.push(e);
            } else {
                removed.push(e);
            }
            i += 1;
        }
        proof {
            assert(orig.take(n as int) =~= orig);
            assert(alive@.take(n as int) =~= alive@);
            lemma_select_by_unique(orig, alive@, true);
        }
        self.entries = kept;
        removed
    }
}

/// The candidate bookmark name before lowercasing: the alias when one
/// is given, else the final segment of the resolved path.
pub open spec fn candidate_name(alias: Option<String>, path: Seq<char>) -> Option<Seq<char>> {
    match alias {
        Some(a) => Some(a@),
        None => basename_of(path),
    }
}

/// Derive the name a mark stores: the alias, or the directory's own
/// name out of the resolved path, lowercased either way.
pub fn derive_name(alias: Option<String>, path: &str) -> (r: Result<String, StoreError>)
    ensures
        match r {
            Ok(n) => candidate_name(alias, path@) matches Some(c) && n@ == lower_of(c),
            Err(e) => e == StoreError::Resolution && candidate_name(alias, path@) is None,
        },
{
    match alias {
        Some(a) => Ok(lowercase(a.as_str())),
        None => match basename(path) {
            Some(b) => Ok(lowercase(b.as_str())),
            None => Err(StoreError::Resolution),
        },
    }
}

/// The confirmation collaborator's decision rule: a line read from
/// the user counts as agreement exactly when it trims to the literal
/// "y" or "yes" (case-sensitive); anything else declines.
pub fn is_affirmative(line: &str) -> (r: bool)
    ensures
        r == (trimmed(line@) == "y"@ || trimmed(line@) == "yes"@),
{
    let t = trim(line);
    str_eq(t.as_str(), "y") || str_eq(t.as_str(), "yes")
}

/// Marking stores a path under a name; getting that name afterwards
/// yields exactly that path.
pub proof fn lemma_mark_then_get(pre: Bookmarks, post: Bookmarks, name: String, path: String)
    requires
        post@ == pre@.insert(name@, path@),
    ensures
        post@.contains_key(name@),
        post@[name@] == path@,
{
}

/// Removing a name leaves it absent: a following get fails.
pub proof fn lemma_remove_then_get(pre: Bookmarks, post: Bookmarks, name: Seq<char>)
    requires
        post@ == pre@.remove(name),
    ensures
        !post@.contains_key(name),
{
}

} // verus!
