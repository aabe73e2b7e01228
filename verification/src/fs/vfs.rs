//! Directory operations of the virtual filesystem layer over easy-fs.
//!
//! A directory inode holds a list of directory entries, each a name and the
//! inode number it points to. An entry whose name is empty is a slot that
//! an unlink cleared; such slots never count as links. Reading and writing
//! the disk blocks that hold the list, and allocating or freeing inodes, are
//! done by the caller: the operations here say which inode numbers they
//! need or free.
use vstd::prelude::*;

verus! {

/// One directory entry: a name and the inode number it points to.
pub struct DirEntry {
    pub name: String,
    pub inode_id: u32,
}

/// A directory inode, by the entries stored in its data.
pub struct Inode {
    pub entries: Vec<DirEntry>,
}

impl View for DirEntry {
    type V = (Seq<char>, u32);

    open spec fn view(&self) -> (Seq<char>, u32) {
        (self.name@, self.inode_id)
    }
}

impl View for Inode {
    type V = Seq<(Seq<char>, u32)>;

    open spec fn view(&self) -> Seq<(Seq<char>, u32)> {
        Seq::new(self.entries@.len(), |i: int| self.entries@[i]@)
    }
}

/// The entry a cleared slot holds.
pub open spec fn empty_entry() -> (Seq<char>, u32) {
    (Seq::empty(), 0u32)
}

/// An entry's name `entry_name` is `name`; a cleared slot, which has no
/// name, matches nothing.
pub open spec fn named_as(entry_name: Seq<char>, name: Seq<char>) -> bool {
    entry_name.len() > 0 && entry_name == name
}

/// Index of the first entry at or after `i` named `name`.
pub open spec fn find_from(es: Seq<(Seq<char>, u32)>, name: Seq<char>, i: int) -> Option<int>
    decreases es.len() - i,
{
    if i < 0 || i >= es.len() {
        None
    } else if named_as(es[i].0, name) {
        Some(i)
    } else {
        find_from(es, name, i + 1)
    }
}

/// The inode number of the first entry named `name`.
pub open spec fn lookup(es: Seq<(Seq<char>, u32)>, name: Seq<char>) -> Option<u32> {
    match find_from(es, name, 0) {
        Some(k) => Some(es[k].1),
        None => None,
    }
}

/// The names of the named entries among the first `k`, in order.
pub open spec fn named_names(es: Seq<(Seq<char>, u32)>, k: int) -> Seq<Seq<char>>
    decreases k,
{
    if k <= 0 {
        Seq::empty()
    } else if es[k - 1].0.len() > 0 {
        named_names(es, k - 1).push(es[k - 1].0)
    } else {
        named_names(es, k - 1)
    }
}

/// Number of entries among the first `k` that have a name.
pub open spec fn count_named(es: Seq<(Seq<char>, u32)>, k: int) -> int
    decreases k,
{
    if k <= 0 {
        0
    } else {
        count_named(es, k - 1) + if es[k - 1].0.len() > 0 {
            1int
        } else {
            0
        }
    }
}

/// Each string by its view.
pub open spec fn string_views(v: Seq<String>) -> Seq<Seq<char>> {
    Seq::new(v.len(), |i: int| v[i]@)
}

/// Number of entries among the first `k` that point to `target` and have a
/// name.
pub open spec fn links(es: Seq<(Seq<char>, u32)>, target: u32, k: int) -> int
    decreases k,
{
    if k <= 0 {
        0
    } else {
        links(es, target, k - 1) + if es[k - 1].1 == target && es[k - 1].0.len() > 0 {
            1int
        } else {
            0
        }
    }
}

/// Number of entries that point to `target` and have a name.
pub open spec fn link_total(es: Seq<(Seq<char>, u32)>, target: u32) -> int {
    links(es, target, es.len() as int)
}

// ---------------------------------------------------------------------------
// Lemmas
// ---------------------------------------------------------------------------

proof fn lemma_find_from_found(es: Seq<(Seq<char>, u32)>, name: Seq<char>, i: int)
    requires
        0 <= i,
    ensures
        find_from(es, name, i) matches Some(k) ==> i <= k < es.len() && named_as(es[k].0, name)
            && forall|m: int| i <= m < k ==> !named_as(es[m].0, name),
        find_from(es, name, i) is None ==> forall|m: int|
            i <= m < es.len() ==> !named_as(es[m].0, name),
    decreases es.len() - i,
{
    if i < es.len() && !named_as(es[i].0, name) {
        lemma_find_from_found(es, name, i + 1);
    }
}

/// An empty name is found nowhere.
pub proof fn law_empty_name_never_found(es: Seq<(Seq<char>, u32)>, name: Seq<char>)
    requires
        name.len() == 0,
    ensures
        find_from(es, name, 0) is None,
        lookup(es, name) is None,
{
    lemma_find_from_found(es, name, 0);
}

proof fn lemma_find_from_push(
    es: Seq<(Seq<char>, u32)>,
    name: Seq<char>,
    e: (Seq<char>, u32),
    i: int,
)
    requires
        0 <= i <= es.len(),
    ensures
        find_from(es.push(e), name, i) == match find_from(es, name, i) {
            Some(k) => Some(k),
            None => if named_as(e.0, name) {
                Some(es.len() as int)
            } else {
                None
            },
        },
    decreases es.len() - i,
{
    let pushed = es.push(e);
    if i < es.len() {
        assert(pushed[i] == es[i]);
        lemma_find_from_push(es, name, e, i + 1);
    } else {
        assert(pushed[i] == e);
        assert(find_from(pushed, name, i + 1) is None);
    }
}

proof fn lemma_links_prefix(es: Seq<(Seq<char>, u32)>, other: Seq<(Seq<char>, u32)>, target: u32, k: int)
    requires
        k <= es.len(),
        k <= other.len(),
        forall|m: int| 0 <= m < k ==> es[m] == other[m],
    ensures
        links(es, target, k) == links(other, target, k),
    decreases k,
{
    if k > 0 {
        lemma_links_prefix(es, other, target, k - 1);
    }
}

proof fn lemma_links_bound(es: Seq<(Seq<char>, u32)>, target: u32, k: int)
    ensures
        0 <= links(es, target, k),
        k >= 0 ==> links(es, target, k) <= k,
    decreases k,
{
    if k > 0 {
        lemma_links_bound(es, target, k - 1);
    }
}

/// Appending an entry keeps the earlier entries' link counts and adds one
/// for the new entry when it is named and points to `target`.
pub proof fn lemma_links_push(es: Seq<(Seq<char>, u32)>, e: (Seq<char>, u32), target: u32)
    ensures
        link_total(es.push(e), target) == link_total(es, target) + if e.1 == target && e.0.len()
            > 0 {
            1int
        } else {
            0
        },
{
    lemma_links_prefix(es.push(e), es, target, es.len() as int);
}

proof fn lemma_links_clear(es: Seq<(Seq<char>, u32)>, idx: int, target: u32, k: int)
    requires
        0 <= idx < es.len(),
        k <= es.len(),
    ensures
        links(es.update(idx, empty_entry()), target, k) == links(es, target, k) - if idx < k
            && es[idx].1 == target && es[idx].0.len() > 0 {
            1int
        } else {
            0
        },
    decreases k,
{
    if k > 0 {
        lemma_links_clear(es, idx, target, k - 1);
    }
}

/// No name is held by two entries (cleared slots, which have no name, may
/// repeat).
pub open spec fn distinct_names(es: Seq<(Seq<char>, u32)>) -> bool {
    forall|i: int, j: int|
        0 <= i < j < es.len() && es[i].0.len() > 0 ==> #[trigger] es[i].0 != #[trigger] es[j].0
}

/// Adding an entry under a name no entry holds keeps names distinct: what
/// `create` and `link` do when they succeed.
pub proof fn law_new_name_keeps_distinct(es: Seq<(Seq<char>, u32)>, e: (Seq<char>, u32))
    requires
        distinct_names(es),
        find_from(es, e.0, 0) is None,
    ensures
        distinct_names(es.push(e)),
{
    lemma_find_from_found(es, e.0, 0);
    let p = es.push(e);
    assert forall|i: int, j: int| 0 <= i < j < p.len() && p[i].0.len() > 0 implies #[trigger] p[i].0
        != #[trigger] p[j].0 by {
        if j == es.len() {
            assert(!named_as(es[i].0, e.0));
        } else {
            assert(p[i] == es[i] && p[j] == es[j]);
        }
    }
}

/// Clearing a slot keeps names distinct: what `unlink` does.
pub proof fn law_clear_keeps_distinct(es: Seq<(Seq<char>, u32)>, k: int)
    requires
        distinct_names(es),
        0 <= k < es.len(),
    ensures
        distinct_names(es.update(k, empty_entry())),
{
    let u = es.update(k, empty_entry());
    assert forall|i: int, j: int| 0 <= i < j < u.len() && u[i].0.len() > 0 implies #[trigger] u[i].0
        != #[trigger] u[j].0 by {
        if j == k {
            assert(u[j].0.len() == 0);
        } else {
            assert(u[i] == es[i] && u[j] == es[j]);
        }
    }
}

/// While names are distinct, unlinking a name leaves no entry by that name.
pub proof fn law_unlinked_name_gone(es: Seq<(Seq<char>, u32)>, name: Seq<char>)
    requires
        distinct_names(es),
        name.len() > 0,
        find_from(es, name, 0) is Some,
    ensures
        find_from(es.update(find_from(es, name, 0)->0, empty_entry()), name, 0) is None,
{
    let k = find_from(es, name, 0)->0;
    lemma_find_from_found(es, name, 0);
    let u = es.update(k, empty_entry());
    lemma_find_from_found(u, name, 0);
    if find_from(u, name, 0) is Some {
        let m = find_from(u, name, 0)->0;
        if m < k {
            assert(u[m] == es[m]);
        } else if m == k {
            assert(u[m].0.len() == 0);
        } else {
            assert(u[m] == es[m]);
            assert(es[k].0 != es[m].0);
        }
    }
}

/// The listing holds one name per named entry, whatever inode each points
/// to: as many names as named entries, and the name of the named entry `i`
/// stands after the names of the named entries before it.
pub proof fn law_listing_has_every_named_entry(es: Seq<(Seq<char>, u32)>, k: int)
    requires
        0 <= k <= es.len(),
    ensures
        named_names(es, k).len() == count_named(es, k),
        forall|i: int|
            0 <= i < k && es[i].0.len() > 0 ==> 0 <= #[trigger] count_named(es, i) < count_named(
                es,
                k,
            ),
        forall|i: int|
            0 <= i < k && es[i].0.len() > 0 ==> named_names(es, k)[#[trigger] count_named(es, i)]
                == es[i].0,
    decreases k,
{
    if k > 0 {
        law_listing_has_every_named_entry(es, k - 1);
        assert forall|i: int| 0 <= i < k && es[i].0.len() > 0 implies 0 <= #[trigger] count_named(
            es,
            i,
        ) < count_named(es, k) by {
            lemma_count_named_nonnegative(es, i);
            lemma_count_named_monotone(es, i + 1, k);
        }
        assert forall|i: int| 0 <= i < k && es[i].0.len() > 0 implies named_names(
            es,
            k,
        )[#[trigger] count_named(es, i)] == es[i].0 by {
            lemma_count_named_nonnegative(es, i);
            if i < k - 1 {
                lemma_count_named_monotone(es, i + 1, k - 1);
                assert(count_named(es, i + 1) == count_named(es, i) + 1);
                assert(named_names(es, k - 1)[count_named(es, i)] == es[i].0);
            }
        }
    }
}

proof fn lemma_count_named_nonnegative(es: Seq<(Seq<char>, u32)>, k: int)
    ensures
        0 <= count_named(es, k),
    decreases k,
{
    if k > 0 {
        lemma_count_named_nonnegative(es, k - 1);
    }
}

proof fn lemma_count_named_monotone(es: Seq<(Seq<char>, u32)>, a: int, b: int)
    requires
        0 <= a <= b,
    ensures
        count_named(es, a) <= count_named(es, b),

    decreases b - a,
{
    if a < b {
        lemma_count_named_monotone(es, a, b - 1);
    }
}

/// Linking `new_name` to what `old_name` names and then unlinking
/// `new_name` finds the new entry, and leaves every lookup and every link
/// count as they were; the directory keeps one more cleared slot.
pub proof fn law_link_then_unlink(es: Seq<(Seq<char>, u32)>, old_name: Seq<char>, new_name: Seq<char>)
    requires
        lookup(es, old_name) is Some,
        lookup(es, new_name) is None,
        new_name.len() > 0,
    ensures
        find_from(es.push((new_name, lookup(es, old_name)->0)), new_name, 0) == Some(es.len() as int),
        forall|x: Seq<char>|
            lookup(
                #[trigger] es.push((new_name, lookup(es, old_name)->0)).update(
                    es.len() as int,
                    empty_entry(),
                ),
                x,
            ) == lookup(es, x),
        forall|t: u32|
            link_total(
                es.push((new_name, lookup(es, old_name)->0)).update(es.len() as int, empty_entry()),
                t,
            ) == #[trigger] link_total(es, t),
{
    let e = (new_name, lookup(es, old_name)->0);
    let linked = es.push(e);
    let unlinked = linked.update(es.len() as int, empty_entry());
    lemma_find_from_push(es, new_name, e, 0);
    assert(unlinked =~= es.push(empty_entry()));
    assert forall|x: Seq<char>| lookup(#[trigger] es.push(e).update(es.len() as int, empty_entry()), x)
        == lookup(es, x) by {
        lemma_find_from_push(es, x, empty_entry(), 0);
        lemma_find_from_found(es, x, 0);
        if find_from(es, x, 0) is Some {
            let k = find_from(es, x, 0)->0;
            assert(unlinked[k] == es[k]);
        }
    }
    assert forall|t: u32| link_total(unlinked, t) == #[trigger] link_total(es, t) by {
        lemma_links_push(es, empty_entry(), t);
    }
}

// ---------------------------------------------------------------------------
// Operations
// ---------------------------------------------------------------------------

impl DirEntry {
    /// The entry of a cleared slot: no name, inode 0.
    pub fn empty() -> (e: DirEntry)
        ensures
            e@ == empty_entry(),
    {
        DirEntry { name: String::new(), inode_id: 0 }
    }
}

impl Inode {
    /// Index of the first entry named `name`, if any.
    fn find_index(&self, name: &String) -> (r: Option<usize>)
        ensures
            r matches Some(k) ==> find_from(self@, name@, 0) == Some(k as int) && k < self@.len(),
            r is None ==> find_from(self@, name@, 0) is None,
    {
        proof {
            lemma_find_from_found(self@, name@, 0);
        }
        let file_count = self.entries.len();
        let mut i: usize = 0;
        while i < file_count
            invariant
                0 <= i <= file_count,
                file_count == self@.len(),
                find_from(self@, name@, 0) == find_from(self@, name@, i as int),
            decreases file_count - i,
        {
            if !self.entries[i].name.as_str().is_empty() && self.entries[i].name == *name {
                return Some(i);
            }
            i = i + 1;
        }
        None
    }

    /// Find the inode number of the entry named `name`.
    fn find_inode_id(&self, name: &String) -> (r: Option<u32>)
        ensures
            r == lookup(self@, name@),
    {
        match self.find_index(name) {
            Some(k) => Some(self.entries[k].inode_id),
            None => None,
        }
    }

    /// Find the inode number that `name` points to in this directory.
    pub fn find(&self, name: &str) -> (r: Option<u32>)
        ensures
            r == lookup(self@, name@),
            name@.len() == 0 ==> r is None,
    {
        proof {
            if name@.len() == 0 {
                law_empty_name_never_found(self@, name@);
            }
        }
        let name = name.to_owned();
        self.find_inode_id(&name)
    }

    /// Create an entry `name` for the newly allocated inode `new_inode_id`;
    /// refused (`None`, nothing changed) when `name` already exists.
    pub fn create(&mut self, name: &str, new_inode_id: u32) -> (r: Option<u32>)
        ensures
            lookup(old(self)@, name@) is Some ==> r is None && final(self)@ == old(self)@,
            lookup(old(self)@, name@) is None ==> r == Some(new_inode_id) && final(self)@
                == old(self)@.push((name@, new_inode_id)),
            r is Some && name@.len() > 0 ==> lookup(final(self)@, name@) == Some(new_inode_id),
    {
        let name = name.to_owned();
        // has the file been created?
        if self.find_inode_id(&name).is_some() {
            return None;
        }
        let ghost before = self@;
        let ghost name_v = name@;
        // append file in the dirent
        self.entries.push(DirEntry { name, inode_id: new_inode_id });
        proof {
            assert(self@ =~= before.push((name_v, new_inode_id)));
            lemma_find_from_push(before, name_v, (name_v, new_inode_id), 0);
        }
        Some(new_inode_id)
    }

    /// List the names of the entries of this directory, in order; cleared
    /// slots have no name and are left out.
    pub fn ls(&self) -> (names: Vec<String>)
        ensures
            string_views(names@) == named_names(self@, self@.len() as int),
            names@.len() == count_named(self@, self@.len() as int),
            forall|i: int|
                0 <= i < self@.len() && self@[i].0.len() > 0 ==> names@[#[trigger] count_named(
                    self@,
                    i,
                )]@ == self@[i].0,
    {
        proof {
            law_listing_has_every_named_entry(self@, self@.len() as int);
        }
        let file_count = self.entries.len();
        let mut v: Vec<String> = Vec::new();
        let mut i: usize = 0;
        while i < file_count
            invariant
                0 <= i <= file_count,
                file_count == self@.len(),
                string_views(v@) == named_names(self@, i as int),
            decreases file_count - i,
        {
            let ghost before = v@;
            if !self.entries[i].name.as_str().is_empty() {
                v.push(self.entries[i].name.clone());
                assert(string_views(v@) =~= string_views(before).push(self@[i as int].0));
            }
            i = i + 1;
        }
        proof {
            assert forall|i: int| 0 <= i < self@.len() && self@[i].0.len() > 0 implies v@[
                #[trigger] count_named(self@, i)]@ == self@[i].0 by {
                assert(string_views(v@)[count_named(self@, i)] == v@[count_named(self@, i)]@);
            }
        }
        v
    }

    /// Count the dir entries in this directory that point to `target_id`.
    /// Empty-named entries (deleted slots) are skipped.
    pub fn link_count(&self, target_id: u32) -> (cnt: u32)
        requires
            self@.len() <= u32::MAX,
        ensures
            cnt == link_total(self@, target_id),
    {
        let file_count = self.entries.len();
        let mut cnt: u32 = 0;
        let mut i: usize = 0;
        while i < file_count
            invariant
                0 <= i <= file_count,
                file_count == self@.len(),
                file_count <= u32::MAX,
                cnt == links(self@, target_id, i as int),
            decreases file_count - i,
        {
            proof {
                lemma_links_bound(self@, target_id, i as int);
            }
            let entry = &self.entries[i];
            if entry.inode_id == target_id && !entry.name.as_str().is_empty() {
                cnt = cnt + 1;
            }
            i = i + 1;
        }
        cnt
    }

    /// Create a hard link `new_name` pointing to the inode currently named
    /// `old_name` in this directory. Returns None if `old_name` is missing or
    /// `new_name` already exists.
    pub fn link(&mut self, old_name: &str, new_name: &str) -> (r: Option<()>)
        ensures
            r is Some <==> lookup(old(self)@, old_name@) is Some && lookup(old(self)@, new_name@) is None,
            r is None ==> final(self)@ == old(self)@,
            r is Some ==> final(self)@ == old(self)@.push(
                (new_name@, lookup(old(self)@, old_name@)->0),
            ),
            old_name@.len() == 0 ==> r is None,
            r is Some && new_name@.len() > 0 ==> lookup(final(self)@, new_name@) == lookup(
                old(self)@,
                old_name@,
            ),
            r is Some ==> link_total(final(self)@, lookup(old(self)@, old_name@)->0) == link_total(
                old(self)@,
                lookup(old(self)@, old_name@)->0,
            ) + if new_name@.len() > 0 {
                1int
            } else {
                0
            },
    {
        proof {
            if old_name@.len() == 0 {
                law_empty_name_never_found(self@, old_name@);
            }
        }
        let old_name = old_name.to_owned();
        let new_name = new_name.to_owned();
        // lookup old name's inode id; reject if old missing or new already present
        let old_id = self.find_inode_id(&old_name);
        let new_exists = self.find_inode_id(&new_name).is_some();
        let old_id = match old_id {
            Some(id) => id,
            None => return None,
        };
        if new_exists {
            return None;
        }
        let ghost before = self@;
        let ghost name_v = new_name@;
        self.entries.push(DirEntry { name: new_name, inode_id: old_id });
        proof {
            assert(self@ =~= before.push((name_v, old_id)));
            lemma_find_from_push(before, name_v, (name_v, old_id), 0);
            lemma_links_push(before, (name_v, old_id), old_id);
        }
        Some(())
    }

    /// Remove `name` from this directory by clearing the first entry so
    /// named. Returns the inode it pointed to and how many named entries
    /// still point to that inode; when that count is zero the caller frees
    /// the inode and its data blocks. `None` when no entry is so named.
    pub fn unlink(&mut self, name: &str) -> (r: Option<(u32, u32)>)
        requires
            old(self)@.len() <= u32::MAX,
        ensures
            name@.len() == 0 ==> r is None && final(self)@ == old(self)@,
            find_from(old(self)@, name@, 0) is None ==> r is None && final(self)@ == old(self)@,
            find_from(old(self)@, name@, 0) matches Some(k) ==> {
                &&& final(self)@ == old(self)@.update(k, empty_entry())
                &&& r == Some((old(self)@[k].1, link_total(final(self)@, old(self)@[k].1) as u32))
                &&& link_total(final(self)@, old(self)@[k].1) == link_total(old(self)@, old(self)@[k].1)
                    - 1
            },
    {
        let name = name.to_owned();
        let file_count = self.entries.len();
        // single pass: find target, count remaining links to it, then zero its slot
        let tidx = match self.find_index(&name) {
            Some(k) => k,
            None => return None,
        };
        let tid = self.entries[tidx].inode_id;
        let ghost cleared = self@.update(tidx as int, empty_entry());
        // count other dir entries that still point at this inode (skip the slot we'll clear)
        let mut nlink: u32 = 0;
        let mut i: usize = 0;
        while i < file_count
            invariant
                0 <= i <= file_count,
                file_count == self@.len(),
                file_count <= u32::MAX,
                tidx < file_count,
                cleared == self@.update(tidx as int, empty_entry()),
                nlink == links(cleared, tid, i as int),
            decreases file_count - i,
        {
            proof {
                lemma_links_bound(cleared, tid, i as int);
            }
            if i != tidx {
                let entry = &self.entries[i];
                if entry.inode_id == tid && !entry.name.as_str().is_empty() {
                    nlink = nlink + 1;
                }
            }
            i = i + 1;
        }
        // zero the slot in place; future scans skip empty-named entries
        let ghost before = self@;
        proof {
            lemma_find_from_found(before, name@, 0);
        }
        self.entries.set(tidx, DirEntry::empty());
        assert(self@ =~= cleared);
        proof {
            lemma_find_from_found(before, name@, 0);
            lemma_links_clear(before, tidx as int, tid, file_count as int);
        }
        Some((tid, nlink))
    }
}

} // verus!
