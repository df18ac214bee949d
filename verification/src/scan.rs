use vstd::prelude::*;
use crate::error::ServeError;
use crate::text::{
    ends_with_md, chars_end_with_md, chars_of, has_md_extension, last_index_of, lemma_last_index_of, md_extension,
    push_char, rfind_char, string_from_chars, strip_md,
};
use crate::resolve::trim_slashes;
use crate::template::{
    lemma_name_lt_irreflexive, lemma_name_lt_total, lemma_name_lt_transitive, name_less, name_lt,
};

verus! {

/// One entry of a directory listing: a file or a subdirectory.
pub struct DirEntry {
    pub name: String,
    pub url: String,
    pub is_dir: bool,
}

/// What a directory entry holds, as plain values.
pub struct DirEntryView {
    pub name: Seq<char>,
    pub url: Seq<char>,
    pub is_dir: bool,
}

impl View for DirEntry {
    type V = DirEntryView;

    open spec fn view(&self) -> DirEntryView {
        DirEntryView { name: self.name@, url: self.url@, is_dir: self.is_dir }
    }
}

/// The index of a served tree: clean URL -> file on disk, and
/// directory URL (ending in `/`) -> the entries listed in it. Both tables are kept in
/// key order, so a lookup is a binary search.
pub struct FileIndex {
    files: Vec<(String, String)>,
    dirs: Vec<(String, Vec<DirEntry>)>,
}

/// No key occurs twice in a table of pairs.
pub open spec fn keys_unique<V>(s: Seq<(String, V)>) -> bool {
    forall|i: int, j: int|
        0 <= i < s.len() && 0 <= j < s.len() && i != j ==> #[trigger] s[i].0@ != #[trigger] s[j].0@
}

/// The keys of a table are in strictly increasing order.
pub open spec fn keys_sorted<V>(s: Seq<(String, V)>) -> bool {
    forall|i: int, j: int| 0 <= i < j < s.len() ==> name_lt(#[trigger] s[i].0@, #[trigger] s[j].0@)
}

proof fn lemma_sorted_keys_unique<V>(s: Seq<(String, V)>)
    requires
        keys_sorted(s),
    ensures
        keys_unique(s),
{
    assert forall|i: int, j: int| 0 <= i < s.len() && 0 <= j < s.len() && i != j implies #[trigger] s[i].0@
        != #[trigger] s[j].0@ by {
        lemma_name_lt_irreflexive(s[i].0@);
    }
}

/// `k` is the key of some pair of the table.
pub open spec fn table_has<V>(s: Seq<(String, V)>, k: Seq<char>) -> bool {
    exists|i: int| 0 <= i < s.len() && #[trigger] s[i].0@ == k
}

/// The position of key `k` in the table.
pub open spec fn table_pos<V>(s: Seq<(String, V)>, k: Seq<char>) -> int {
    choose|i: int| 0 <= i < s.len() && #[trigger] s[i].0@ == k
}

proof fn lemma_table_pos<V>(s: Seq<(String, V)>, k: Seq<char>, i: int)
    requires
        keys_unique(s),
        0 <= i < s.len(),
        s[i].0@ == k,
    ensures
        table_has(s, k),
        table_pos(s, k) == i,
{
    assert(table_has(s, k));
    let j = table_pos(s, k);
    assert(s[j].0@ == k);
}

/// The entries of a directory, as plain values.
pub open spec fn entries_view(v: Vec<DirEntry>) -> Seq<DirEntryView> {
    v@.map_values(|e: DirEntry| e@)
}

/// `dirs` with an empty listing at `key` unless one is there already.
pub open spec fn with_dir(
    dirs: Map<Seq<char>, Seq<DirEntryView>>,
    key: Seq<char>,
) -> Map<Seq<char>, Seq<DirEntryView>> {
    if dirs.contains_key(key) {
        dirs
    } else {
        dirs.insert(key, Seq::empty())
    }
}

/// `dirs` with `entry` appended to the listing at `key` (created empty first if absent).
pub open spec fn with_child(
    dirs: Map<Seq<char>, Seq<DirEntryView>>,
    key: Seq<char>,
    entry: DirEntryView,
) -> Map<Seq<char>, Seq<DirEntryView>> {
    let d = with_dir(dirs, key);
    d.insert(key, d[key].push(entry))
}

/// Some key of the map is mapped to `v`.
pub open spec fn map_holds_value(m: Map<Seq<char>, Seq<char>>, v: Seq<char>) -> bool {
    exists|k: Seq<char>| m.contains_key(k) && m[k] == v
}

impl FileIndex {
    /// The tables are ordered by key, with no key twice.
    #[verifier::type_invariant]
    spec fn wf(&self) -> bool {
        &&& keys_unique(self.files@)
        &&& keys_unique(self.dirs@)
        &&& keys_sorted(self.files@)
        &&& keys_sorted(self.dirs@)
    }

    /// Clean URL -> path of the file on disk.
    pub closed spec fn files_map(&self) -> Map<Seq<char>, Seq<char>> {
        Map::new(
            |k: Seq<char>| table_has(self.files@, k),
            |k: Seq<char>| self.files@[table_pos(self.files@, k)].1@,
        )
    }

    /// Directory URL -> its listed entries, in insertion order.
    pub closed spec fn dirs_map(&self) -> Map<Seq<char>, Seq<DirEntryView>> {
        Map::new(
            |k: Seq<char>| table_has(self.dirs@, k),
            |k: Seq<char>| entries_view(self.dirs@[table_pos(self.dirs@, k)].1),
        )
    }

    /// An index with no files and an empty root directory `/`.
    pub fn new() -> (r: Self)
        ensures
            r.files_map() == Map::<Seq<char>, Seq<char>>::empty(),
            r.dirs_map() == Map::<Seq<char>, Seq<DirEntryView>>::empty().insert(
                seq!['/'],
                Seq::empty(),
            ),
    {
        let mut dirs: Vec<(String, Vec<DirEntry>)> = Vec::new();
        let root = String::from_str("/");
        proof {
            reveal_strlit("/");
        }
        dirs.push((root, Vec::new()));
        let r = FileIndex { files: Vec::new(), dirs };
        proof {
            assert(r.dirs@[0].0@ =~= seq!['/']);
            lemma_table_pos(r.dirs@, seq!['/'], 0);
            assert(r.files_map() =~= Map::<Seq<char>, Seq<char>>::empty());
            assert(entries_view(r.dirs@[0].1) =~= Seq::<DirEntryView>::empty());
            assert(r.dirs_map() =~= Map::<Seq<char>, Seq<DirEntryView>>::empty().insert(
                seq!['/'],
                Seq::empty(),
            ));
        }
        r
    }

    fn find_file(&self, url: &String) -> (r: Option<usize>)
        requires
            self.wf(),
        ensures
            match r {
                Some(i) => i < self.files@.len() && self.files@[i as int].0@ == url@
                    && table_pos(self.files@, url@) == i,
                None => !table_has(self.files@, url@),
            },
    {
        match search(&self.files, url) {
            Ok(i) => Some(i),
            Err(_) => None,
        }
    }

    fn find_dir(&self, url: &String) -> (r: Option<usize>)
        requires
            self.wf(),
        ensures
            match r {
                Some(i) => i < self.dirs@.len() && self.dirs@[i as int].0@ == url@
                    && table_pos(self.dirs@, url@) == i,
                None => !table_has(self.dirs@, url@),
            },
    {
        match search(&self.dirs, url) {
            Ok(i) => Some(i),
            Err(_) => None,
        }
    }

    /// The file on disk served at a clean URL, if any.
    pub fn file_path(&self, url: &String) -> (r: Option<String>)
        ensures
            r is Some <==> self.files_map().contains_key(url@),
            r matches Some(p) ==> p@ == self.files_map()[url@],
    {
        proof {
            use_type_invariant(self);
        }
        match self.find_file(url) {
            Some(i) => Some(self.files[i].1.clone()),
            None => None,
        }
    }

    /// Whether a clean URL names a file of the index.
    pub fn has_file(&self, url: &String) -> (r: bool)
        ensures
            r == self.files_map().contains_key(url@),
    {
        proof {
            use_type_invariant(self);
        }
        self.find_file(url).is_some()
    }

    /// Whether a URL names a directory of the index.
    pub fn has_dir(&self, url: &String) -> (r: bool)
        ensures
            r == self.dirs_map().contains_key(url@),
    {
        proof {
            use_type_invariant(self);
        }
        self.find_dir(url).is_some()
    }

    /// The listed entries of a directory, if the URL names one.
    pub fn dir_entries(&self, url: &String) -> (r: Option<&Vec<DirEntry>>)
        ensures
            r is Some <==> self.dirs_map().contains_key(url@),
            r matches Some(v) ==> entries_view(*v) == self.dirs_map()[url@],
    {
        proof {
            use_type_invariant(self);
        }
        match self.find_dir(url) {
            Some(i) => Some(&self.dirs[i].1),
            None => None,
        }
    }

    /// How many clean URLs the index maps to files.
    pub fn file_count(&self) -> (n: usize)
        ensures
            self.files_map().dom().finite(),
            n == self.files_map().dom().len(),
    {
        proof {
            use_type_invariant(self);
        }
        proof {
            lemma_table_keys(self.files@);
            assert(self.files_map().dom() =~= Set::new(|k: Seq<char>| table_has(self.files@, k)));
        }
        self.files.len()
    }

    /// How many directories the index lists.
    pub fn dir_count(&self) -> (n: usize)
        ensures
            self.dirs_map().dom().finite(),
            n == self.dirs_map().dom().len(),
    {
        proof {
            use_type_invariant(self);
        }
        proof {
            lemma_table_keys(self.dirs@);
            assert(self.dirs_map().dom() =~= Set::new(|k: Seq<char>| table_has(self.dirs@, k)));
        }
        self.dirs.len()
    }

    /// The paths on disk of all indexed files.
    pub fn file_paths(&self) -> (r: Vec<String>)
        ensures
            forall|i: int| 0 <= i < r@.len() ==> #[trigger] map_holds_value(self.files_map(), r@[i]@),
            forall|k: Seq<char>| #[trigger] self.files_map().contains_key(k) ==> exists|i: int|
                0 <= i < r@.len() && r@[i]@ == self.files_map()[k],
    {
        proof {
            use_type_invariant(self);
        }
        let mut r: Vec<String> = Vec::new();
        let mut i: usize = 0;
        while i < self.files.len()
            invariant
                i <= self.files@.len(),
                r@.len() == i,
                forall|j: int| 0 <= j < i ==> #[trigger] r@[j]@ == self.files@[j].1@,
            decreases self.files.len() - i,
        {
            r.push(self.files[i].1.clone());
            i = i + 1;
        }
        proof {
            assert forall|j: int| 0 <= j < r@.len() implies #[trigger] map_holds_value(self.files_map(), r@[j]@) by {
                let k = self.files@[j].0@;
                lemma_table_pos(self.files@, k, j);
                assert(self.files_map().contains_key(k));
                assert(self.files_map()[k] == r@[j]@);
            }
            assert forall|k: Seq<char>| #[trigger] self.files_map().contains_key(k) implies exists|j: int|
                0 <= j < r@.len() && r@[j]@ == self.files_map()[k] by {
                let j = table_pos(self.files@, k);
                assert(r@[j]@ == self.files@[j].1@);
            }
        }
        r
    }

    /// Maps a clean URL to a file on disk, replacing any earlier mapping.
    pub fn insert_file(&mut self, url: String, path: String)
        ensures
            final(self).files_map() == old(self).files_map().insert(url@, path@),
            final(self).dirs_map() == old(self).dirs_map(),
    {
        proof {
            use_type_invariant(&*self);
        }
        let ghost old_files = self.files@;
        let ghost key = url@;
        let ghost val = path@;
        let found = search(&self.files, &url);
        let mut files: Vec<(String, String)> = Vec::new();
        std::mem::swap(&mut files, &mut self.files);
        match found {
            Ok(i) => {
                files.set(i, (url, path));
                proof {
                    lemma_update_value(old_files, files@, i as int);
                    lemma_table_pos(files@, key, i as int);
                }
            },
            Err(i) => {
                files.insert(i, (url, path));
                proof {
                    assert(files@ == old_files.insert(i as int, files@[i as int]));
                    lemma_insert_new_key(old_files, files@, i as int);
                }
            },
        }
        self.files = files;
        proof {
            assert(self.files_map() =~= old(self).files_map().insert(key, val));
        }
    }

    /// Makes sure a directory is listed, with no entries if it was not there before.
    pub fn ensure_dir(&mut self, url: String)
        ensures
            final(self).files_map() == old(self).files_map(),
            final(self).dirs_map() == with_dir(old(self).dirs_map(), url@),
    {
        proof {
            use_type_invariant(&*self);
        }
        let ghost old_dirs = self.dirs@;
        let ghost key = url@;
        match search(&self.dirs, &url) {
            Ok(_) => {},
            Err(i) => {
                let mut dirs: Vec<(String, Vec<DirEntry>)> = Vec::new();
                std::mem::swap(&mut dirs, &mut self.dirs);
                dirs.insert(i, (url, Vec::new()));
                proof {
                    assert(dirs@ == old_dirs.insert(i as int, dirs@[i as int]));
                    lemma_insert_new_key(old_dirs, dirs@, i as int);
                }
                self.dirs = dirs;
                proof {
                    assert(entries_view(self.dirs@[i as int].1) =~= Seq::<DirEntryView>::empty());
                    assert(self.dirs_map() =~= old(self).dirs_map().insert(key, Seq::empty()));
                }
            },
        }
    }

    /// Appends an entry to the listing of a directory, creating the listing if needed.
    pub fn push_dir_entry(&mut self, dir: String, entry: DirEntry)
        ensures
            final(self).files_map() == old(self).files_map(),
            final(self).dirs_map() == with_child(old(self).dirs_map(), dir@, entry@),
    {
        proof {
            use_type_invariant(&*self);
        }
        let ghost e = entry@;
        let ghost key = dir@;
        let probe = dir.clone();
        self.ensure_dir(dir);
        proof {
            use_type_invariant(&*self);
        }
        let ghost mid = self.dirs@;
        let ghost mid_map = self.dirs_map();
        assert(mid_map.contains_key(key));
        assert(table_has(mid, probe@));
        match self.find_dir(&probe) {
            Some(i) => {
                let mut dirs: Vec<(String, Vec<DirEntry>)> = Vec::new();
                std::mem::swap(&mut dirs, &mut self.dirs);
                let (k, mut listing) = dirs.remove(i);
                listing.push(entry);
                dirs.insert(i, (k, listing));
                proof {
                    assert(dirs@ =~= mid.update(i as int, dirs@[i as int]));
                    lemma_update_value(mid, dirs@, i as int);
                }
                self.dirs = dirs;
                proof {
                    assert(self.dirs@ =~= mid.update(i as int, self.dirs@[i as int]));
                    lemma_update_value(mid, self.dirs@, i as int);
                    lemma_table_pos(self.dirs@, key, i as int);
                    assert(entries_view(self.dirs@[i as int].1) =~= entries_view(mid[i as int].1).push(e));
                    assert(self.dirs_map() =~= mid_map.insert(key, mid_map[key].push(e)));
                }
            },
            None => {
                proof {
                    assert(false);
                }
            },
        }
    }
}

/// Binary search of a table ordered by key: `Ok` with the key's position, or `Err` with
/// the position at which the key would keep the table in order.
fn search<V>(table: &Vec<(String, V)>, url: &String) -> (r: Result<usize, usize>)
    requires
        keys_unique(table@),
        keys_sorted(table@),
    ensures
        match r {
            Ok(i) => i < table@.len() && table@[i as int].0@ == url@ && table_pos(table@, url@) == i,
            Err(i) => i <= table@.len() && !table_has(table@, url@) && (forall|j: int|
                0 <= j < i ==> name_lt(#[trigger] table@[j].0@, url@)) && (forall|j: int|
                i <= j < table@.len() ==> name_lt(url@, #[trigger] table@[j].0@)),
        },
{
    let mut lo: usize = 0;
    let mut hi: usize = table.len();
    while lo < hi
        invariant
            lo <= hi <= table@.len(),
            keys_unique(table@),
            keys_sorted(table@),
            forall|j: int| 0 <= j < lo ==> name_lt(#[trigger] table@[j].0@, url@),
            forall|j: int| hi <= j < table@.len() ==> name_lt(url@, #[trigger] table@[j].0@),
        decreases hi - lo,
    {
        let mid = lo + (hi - lo) / 2;
        let key = &table[mid].0;
        if *key == *url {
            proof {
                lemma_table_pos(table@, url@, mid as int);
            }
            return Ok(mid);
        }
        if name_less(key, url) {
            proof {
                assert forall|j: int| 0 <= j < mid + 1 implies name_lt(#[trigger] table@[j].0@, url@) by {
                    if j < mid {
                        lemma_name_lt_transitive(table@[j].0@, table@[mid as int].0@, url@);
                    }
                }
            }
            lo = mid + 1;
        } else {
            proof {
                lemma_name_lt_total(key@, url@);
                assert forall|j: int| mid <= j < table@.len() implies name_lt(url@, #[trigger] table@[j].0@) by {
                    if j > mid {
                        lemma_name_lt_transitive(url@, table@[mid as int].0@, table@[j].0@);
                    }
                }
            }
            hi = mid;
        }
    }
    proof {
        if table_has(table@, url@) {
            let j = table_pos(table@, url@);
            lemma_name_lt_irreflexive(url@);
        }
    }
    Err(lo)
}

/// Inserting a pair at the position where its key keeps the table in order keeps the
/// table ordered, adds the key and leaves every other key with its value.
proof fn lemma_insert_new_key<V>(old_s: Seq<(String, V)>, new_s: Seq<(String, V)>, p: int)
    requires
        keys_sorted(old_s),
        0 <= p <= old_s.len(),
        new_s.len() == old_s.len() + 1,
        forall|j: int| 0 <= j < p ==> new_s[j] == old_s[j],
        forall|j: int| p < j < new_s.len() ==> new_s[j] == old_s[j - 1],
        forall|j: int| 0 <= j < p ==> name_lt(#[trigger] old_s[j].0@, new_s[p].0@),
        forall|j: int| p <= j < old_s.len() ==> name_lt(new_s[p].0@, #[trigger] old_s[j].0@),
    ensures
        keys_sorted(new_s),
        keys_unique(new_s),
        table_has(new_s, new_s[p].0@),
        table_pos(new_s, new_s[p].0@) == p,
        forall|k: Seq<char>| #[trigger] table_has(new_s, k) <==> (table_has(old_s, k) || k == new_s[p].0@),
        forall|k: Seq<char>| #[trigger]
            table_has(old_s, k) ==> new_s[table_pos(new_s, k)] == old_s[table_pos(old_s, k)],
{
    let x = new_s[p].0@;
    assert forall|a: int, b: int| 0 <= a < b < new_s.len() implies name_lt(
        #[trigger] new_s[a].0@,
        #[trigger] new_s[b].0@,
    ) by {
        if a < p && b < p {
            assert(old_s[a] == new_s[a] && old_s[b] == new_s[b]);
        } else if a < p && b == p {
            assert(old_s[a] == new_s[a]);
        } else if a < p {
            assert(old_s[a] == new_s[a] && old_s[b - 1] == new_s[b]);
            lemma_name_lt_transitive(old_s[a].0@, x, old_s[b - 1].0@);
        } else if a == p {
            assert(old_s[b - 1] == new_s[b]);
        } else {
            assert(old_s[a - 1] == new_s[a] && old_s[b - 1] == new_s[b]);
        }
    }
    lemma_sorted_keys_unique(new_s);
    lemma_table_pos(new_s, x, p);
    lemma_sorted_keys_unique(old_s);
    assert forall|k: Seq<char>| #[trigger] table_has(old_s, k) implies table_has(new_s, k)
        && new_s[table_pos(new_s, k)] == old_s[table_pos(old_s, k)] by {
        let j = table_pos(old_s, k);
        if j < p {
            assert(new_s[j] == old_s[j]);
            lemma_table_pos(new_s, k, j);
        } else {
            assert(new_s[j + 1] == old_s[j]);
            lemma_table_pos(new_s, k, j + 1);
        }
    }
    assert forall|k: Seq<char>| #[trigger] table_has(new_s, k) implies k == x || table_has(old_s, k) by {
        let j = table_pos(new_s, k);
        if j < p {
            assert(old_s[j] == new_s[j]);
        } else if j > p {
            assert(old_s[j - 1] == new_s[j]);
        }
    }
}

/// The keys of a table without duplicates are as many as its pairs.
proof fn lemma_table_keys<V>(s: Seq<(String, V)>)
    requires
        keys_unique(s),
    ensures
        Set::new(|k: Seq<char>| table_has(s, k)).finite(),
        Set::new(|k: Seq<char>| table_has(s, k)).len() == s.len(),
    decreases s.len(),
{
    let keys = Set::new(|k: Seq<char>| table_has(s, k));
    if s.len() == 0 {
        assert(keys =~= Set::<Seq<char>>::empty());
    } else {
        let prev = s.drop_last();
        assert(keys_unique(prev)) by {
            assert forall|i: int, j: int| 0 <= i < prev.len() && 0 <= j < prev.len() && i != j
                implies #[trigger] prev[i].0@ != #[trigger] prev[j].0@ by {
                assert(prev[i] == s[i] && prev[j] == s[j]);
            }
        }
        lemma_table_keys(prev);
        let prev_keys = Set::new(|k: Seq<char>| table_has(prev, k));
        let last = s.last().0@;
        assert(!prev_keys.contains(last)) by {
            if table_has(prev, last) {
                let i = table_pos(prev, last);
                assert(s[i].0@ == s[s.len() - 1].0@);
            }
        }
        assert forall|k: Seq<char>| keys.contains(k) <==> prev_keys.insert(last).contains(k) by {
            if table_has(s, k) && k != last {
                let i = table_pos(s, k);
                assert(prev[i] == s[i]);
            }
            if table_has(prev, k) {
                let i = table_pos(prev, k);
                assert(s[i] == prev[i]);
            }
        }
        assert(keys =~= prev_keys.insert(last));
    }
}

proof fn lemma_update_value<V>(old_s: Seq<(String, V)>, new_s: Seq<(String, V)>, i: int)
    requires
        keys_unique(old_s),
        0 <= i < old_s.len(),
        new_s.len() == old_s.len(),
        new_s[i].0@ == old_s[i].0@,
        forall|j: int| 0 <= j < old_s.len() && j != i ==> new_s[j] == old_s[j],
    ensures
        keys_unique(new_s),
        keys_sorted(old_s) ==> keys_sorted(new_s),
        forall|k: Seq<char>| #[trigger] table_has(new_s, k) <==> table_has(old_s, k),
        forall|k: Seq<char>| #[trigger]
            table_has(old_s, k) ==> table_pos(new_s, k) == table_pos(old_s, k),
{
    assert forall|a: int, b: int| 0 <= a < new_s.len() && 0 <= b < new_s.len() && a != b implies
        #[trigger] new_s[a].0@ != #[trigger] new_s[b].0@ by {
        assert(new_s[a].0@ == old_s[a].0@);
        assert(new_s[b].0@ == old_s[b].0@);
    }
    assert forall|a: int, b: int| keys_sorted(old_s) && 0 <= a < b < new_s.len() implies name_lt(
        #[trigger] new_s[a].0@,
        #[trigger] new_s[b].0@,
    ) by {
        assert(new_s[a].0@ == old_s[a].0@);
        assert(new_s[b].0@ == old_s[b].0@);
    }
    assert forall|k: Seq<char>| #[trigger] table_has(old_s, k) implies table_has(new_s, k)
        && table_pos(new_s, k) == table_pos(old_s, k) by {
        let j = table_pos(old_s, k);
        assert(new_s[j].0@ == old_s[j].0@);
        lemma_table_pos(new_s, k, j);
    }
    assert forall|k: Seq<char>| #[trigger] table_has(new_s, k) implies table_has(old_s, k) by {
        let j = table_pos(new_s, k);
        assert(new_s[j].0@ == old_s[j].0@);
    }
}

/// One component of a path relative to the served root.
pub enum PathComponent {
    /// A file or directory name, converted to text (lossily where it is not UTF-8).
    Normal(String),
    /// Any other component (root, prefix, `.` or `..`).
    Other,
}

/// `/name` for each name component, in order.
pub open spec fn components_url(c: Seq<PathComponent>) -> Seq<char>
    decreases c.len(),
{
    if c.len() == 0 {
        Seq::empty()
    } else {
        let rest = components_url(c.drop_last());
        match c.last() {
            PathComponent::Normal(name) => rest.push('/') + name@,
            PathComponent::Other => rest,
        }
    }
}

/// The URL of a relative path: `/a/b` for `a/b`, and `/` when it has no names.
pub open spec fn url_of_path(c: Seq<PathComponent>) -> Seq<char> {
    if components_url(c).len() == 0 {
        seq!['/']
    } else {
        components_url(c)
    }
}

/// The URL of the directory that holds `url`.
pub open spec fn parent_url(url: Seq<char>) -> Seq<char> {
    let pos = last_index_of(url, '/');
    if pos <= 0 {
        seq!['/']
    } else {
        url.take(pos).push('/')
    }
}

/// The last segment of `url`.
pub open spec fn file_name_of(url: Seq<char>) -> Seq<char> {
    let pos = last_index_of(url, '/');
    if pos < 0 {
        url
    } else {
        url.skip(pos + 1)
    }
}

/// A URL with a segment that starts with a dot (a `/` followed by `.`): it lies in or
/// is a hidden file or directory.
pub open spec fn hidden_url(u: Seq<char>) -> bool {
    exists|i: int| 0 <= i && i + 1 < u.len() && #[trigger] u[i] == '/' && u[i + 1] == '.'
}

/// Whether a URL has a segment that starts with a dot.
pub fn has_hidden_segment(url: &str) -> (r: bool)
    ensures
        r == hidden_url(url@),
{
    let v = chars_of(url);
    let mut i: usize = 0;
    while i < v.len() && i + 1 < v.len()
        invariant
            i <= v@.len(),
            v@ == url@,
            forall|j: int| 0 <= j < i && j + 1 < v@.len() ==> !(#[trigger] v@[j] == '/' && v@[j + 1] == '.'),
        decreases v.len() - i,
    {
        if v[i] == '/' && v[i + 1] == '.' {
            return true;
        }
        i = i + 1;
    }
    false
}

/// A file name that starts with a dot.
pub open spec fn hidden_name(name: Option<String>) -> bool {
    match name {
        Some(n) => n@.len() > 0 && n@[0] == '.',
        None => false,
    }
}

/// A URL with a `/` is its parent directory's URL followed by its file name.
pub proof fn law_parent_then_name_is_the_url(url: Seq<char>)
    requires
        url.contains('/'),
    ensures
        parent_url(url) + file_name_of(url) == url,
{
    lemma_last_index_of(url, '/');
    let k = choose|k: int| 0 <= k < url.len() && url[k] == '/';
    let pos = last_index_of(url, '/');
    assert(pos >= k);
    if pos == 0 {
        assert(seq!['/'] + url.skip(1) =~= url);
    } else {
        assert(url.take(pos).push('/') + url.skip(pos + 1) =~= url);
    }
}

/// The URL of a relative path starts with `/`.
pub proof fn law_url_of_path_is_absolute(c: Seq<PathComponent>)
    ensures
        url_of_path(c).len() > 0,
        url_of_path(c)[0] == '/',
{
    lemma_components_url(c);
}

proof fn lemma_components_url(c: Seq<PathComponent>)
    ensures
        components_url(c).len() > 0 ==> components_url(c)[0] == '/',
    decreases c.len(),
{
    if c.len() > 0 {
        lemma_components_url(c.drop_last());
        let rest = components_url(c.drop_last());
        match c.last() {
            PathComponent::Normal(name) => {
                assert((rest.push('/') + name@)[0] == rest.push('/')[0]);
            },
            PathComponent::Other => {},
        }
    }
}

/// Builds the URL of a path relative to the served root.
pub fn path_to_url(components: &Vec<PathComponent>) -> (url: String)
    ensures
        url@ == url_of_path(components@),
{
    let mut s = String::new();
    let mut i: usize = 0;
    while i < components.len()
        invariant
            i <= components@.len(),
            s@ == components_url(components@.take(i as int)),
        decreases components.len() - i,
    {
        proof {
            assert(components@.take(i + 1).drop_last() =~= components@.take(i as int));
        }
        match &components[i] {
            PathComponent::Normal(name) => {
                push_char(&mut s, '/');
                s.append(name.as_str());
            },
            PathComponent::Other => {},
        }
        i = i + 1;
    }
    proof {
        assert(components@.take(components@.len() as int) =~= components@);
    }
    if s.as_str().is_empty() {
        push_char(&mut s, '/');
        proof {
            assert(s@ =~= seq!['/']);
        }
    }
    s
}

/// The URL of the directory that holds `url`, ending in `/`.
pub fn parent_dir_url(url: &str) -> (r: String)
    ensures
        r@ == parent_url(url@),
{
    let v = chars_of(url);
    proof {
        lemma_last_index_of(v@, '/');
    }
    match rfind_char(&v, '/') {
        Some(pos) => {
            if pos == 0 {
                let mut r = String::new();
                push_char(&mut r, '/');
                proof {
                    assert(r@ =~= seq!['/']);
                }
                r
            } else {
                let mut r = string_from_chars(&v, 0, pos);
                push_char(&mut r, '/');
                proof {
                    assert(v@.subrange(0, pos as int) =~= v@.take(pos as int));
                }
                r
            }
        },
        None => {
            let mut r = String::new();
            push_char(&mut r, '/');
            proof {
                assert(r@ =~= seq!['/']);
            }
            r
        },
    }
}

/// The last segment of a URL.
pub fn file_name_from_url(url: &str) -> (r: String)
    ensures
        r@ == file_name_of(url@),
{
    let v = chars_of(url);
    proof {
        lemma_last_index_of(v@, '/');
    }
    match rfind_char(&v, '/') {
        Some(pos) => {
            assert(pos < v@.len());
            let r = string_from_chars(&v, pos + 1, v.len());
            proof {
                assert(v@.subrange(pos + 1, v@.len() as int) =~= v@.skip(pos + 1));
            }
            r
        },
        None => {
            let r = string_from_chars(&v, 0, v.len());
            proof {
                assert(v@.subrange(0, v@.len() as int) =~= v@);
            }
            r
        },
    }
}

/// Whether a file name (as UTF-8, if it is) marks a hidden entry.
pub fn is_hidden(file_name: &Option<String>) -> (r: bool)
    ensures
        r == hidden_name(*file_name),
{
    match file_name {
        Some(name) => {
            let v = chars_of(name.as_str());
            v.len() > 0 && v[0] == '.'
        },
        None => false,
    }
}

/// What a walked path on disk is.
pub enum EntryKind {
    Dir,
    File,
    /// Neither a directory nor a regular file (a broken link, a socket, ...).
    Other,
}

/// One path met while walking the served tree, as plain values.
pub struct WalkEntry {
    /// The path is the root of the walk itself.
    pub is_root: bool,
    /// The path relative to the root; `None` when it does not lie under the root.
    pub relative: Option<Vec<PathComponent>>,
    /// The full path on disk.
    pub fs_path: String,
    /// The last component of the path, when it is valid UTF-8.
    pub file_name: Option<String>,
    pub kind: EntryKind,
}

/// The index as plain values.
pub struct IndexModel {
    pub files: Map<Seq<char>, Seq<char>>,
    pub dirs: Map<Seq<char>, Seq<DirEntryView>>,
}

impl FileIndex {
    pub open spec fn model(&self) -> IndexModel {
        IndexModel { files: self.files_map(), dirs: self.dirs_map() }
    }
}

/// The model of a fresh index: no files, an empty root directory.
pub open spec fn initial_model() -> IndexModel {
    IndexModel {
        files: Map::empty(),
        dirs: Map::empty().insert(seq!['/'], Seq::empty()),
    }
}

/// The clean URL of a file: a Markdown file loses its `.md`.
pub open spec fn file_url(url_path: Seq<char>, fs_path: Seq<char>) -> Seq<char> {
    if md_extension(fs_path) {
        strip_md(url_path)
    } else {
        url_path
    }
}

/// The index after one walked path; `None` when the path does not lie under the root.
pub open spec fn walk_step(m: IndexModel, e: WalkEntry) -> Option<IndexModel> {
    if e.is_root || hidden_name(e.file_name) {
        Some(m)
    } else {
        match e.relative {
            None => None,
            Some(c) => {
                let u = url_of_path(c@);
                if hidden_url(u) {
                    Some(m)
                } else {
                match e.kind {
                    EntryKind::Dir => Some(
                        IndexModel {
                            files: m.files,
                            dirs: with_child(
                                with_dir(m.dirs, u.push('/')),
                                parent_url(u),
                                DirEntryView { name: file_name_of(u), url: u.push('/'), is_dir: true },
                            ),
                        },
                    ),
                    EntryKind::File => {
                        let f = file_url(u, e.fs_path@);
                        Some(
                            IndexModel {
                                files: m.files.insert(f, e.fs_path@),
                                dirs: with_child(
                                    m.dirs,
                                    parent_url(u),
                                    DirEntryView { name: file_name_of(f), url: f, is_dir: false },
                                ),
                            },
                        )
                    },
                    EntryKind::Other => Some(m),
                }
                }
            },
        }
    }
}

/// The index after walking all paths in order; `None` if one of them fails.
pub open spec fn walk_all(m: IndexModel, es: Seq<WalkEntry>) -> Option<IndexModel>
    decreases es.len(),
{
    if es.len() == 0 {
        Some(m)
    } else {
        match walk_all(m, es.drop_last()) {
            Some(m2) => walk_step(m2, es.last()),
            None => None,
        }
    }
}

/// Records one walked path in the index.
pub fn add_walk_entry(index: &mut FileIndex, entry: &WalkEntry) -> (r: Result<(), ServeError>)
    ensures
        match walk_step(old(index).model(), *entry) {
            Some(m) => r is Ok && final(index).files_map() == m.files && final(index).dirs_map()
                == m.dirs,
            None => r matches Err(ServeError::PathTraversal(p)) && p@ == entry.fs_path@,
        },
{
    if entry.is_root {
        return Ok(());
    }
    if is_hidden(&entry.file_name) {
        return Ok(());
    }
    let components = match &entry.relative {
        Some(c) => c,
        None => {
            return Err(ServeError::PathTraversal(entry.fs_path.clone()));
        },
    };
    let url_path = path_to_url(components);
    if has_hidden_segment(url_path.as_str()) {
        return Ok(());
    }
    match &entry.kind {
        EntryKind::Dir => {
            let mut dir_url = url_path.clone();
            push_char(&mut dir_url, '/');
            index.ensure_dir(dir_url.clone());
            let parent = parent_dir_url(url_path.as_str());
            let name = file_name_from_url(url_path.as_str());
            index.push_dir_entry(parent, DirEntry { name, url: dir_url, is_dir: true });
        },
        EntryKind::File => {
            let url = if has_md_extension(entry.fs_path.as_str()) {
                let v = chars_of(url_path.as_str());
                if chars_end_with_md(&v) {
                    let stem = string_from_chars(&v, 0, v.len() - 3);
                    proof {
                        assert(v@.subrange(0, v@.len() - 3) =~= v@.take(v@.len() - 3));
                    }
                    stem
                } else {
                    url_path.clone()
                }
            } else {
                url_path.clone()
            };
            index.insert_file(url.clone(), entry.fs_path.clone());
            let parent = parent_dir_url(url_path.as_str());
            let name = file_name_from_url(url.as_str());
            index.push_dir_entry(parent, DirEntry { name, url, is_dir: false });
        },
        EntryKind::Other => {},
    }
    Ok(())
}

/// Builds the index of a served tree from the paths met while walking it, in order.
/// Fails on the first path that does not lie under the root.
pub fn scan_entries(entries: &Vec<WalkEntry>) -> (r: Result<FileIndex, ServeError>)
    ensures
        match walk_all(initial_model(), entries@) {
            Some(m) => r matches Ok(index) && index.files_map() == m.files
                && index.dirs_map() == m.dirs,
            None => r matches Err(ServeError::PathTraversal(p)) && exists|i: int|
                0 <= i < entries@.len() && #[trigger] entries@[i].fs_path@ == p@
                && walk_all(initial_model(), entries@.take(i)) is Some
                && walk_step(walk_all(initial_model(), entries@.take(i))->0, entries@[i]) is None,
        },
{
    let mut index = FileIndex::new();
    let mut i: usize = 0;
    while i < entries.len()
        invariant
            i <= entries@.len(),
            walk_all(initial_model(), entries@.take(i as int)) == Some(index.model()),
        decreases entries.len() - i,
    {
        proof {
            assert(entries@.take(i + 1).drop_last() =~= entries@.take(i as int));
        }
        let ghost before = index.model();
        match add_walk_entry(&mut index, &entries[i]) {
            Ok(()) => {},
            Err(e) => {
                proof {
                    lemma_walk_all_stays_none(initial_model(), entries@, i as int + 1);
                    assert(entries@.take(entries@.len() as int) =~= entries@);
                }
                return Err(e);
            },
        }
        proof {
            assert(index.model() == walk_step(before, entries@[i as int])->0);
        }
        i = i + 1;
    }
    proof {
        assert(entries@.take(entries@.len() as int) =~= entries@);
    }
    Ok(index)
}

/// Hidden entries (names starting with `.`) leave the index as it was.
pub proof fn law_hidden_entries_are_skipped(m: IndexModel, e: WalkEntry)
    requires
        hidden_name(e.file_name),
    ensures
        walk_step(m, e) == Some(m),
{
}

/// Hidden paths, the root itself and paths of other kinds (links, sockets, ...) leave
/// the index as it was; a visible path that does not lie under the root makes the walk
/// fail, and a failed walk stays failed whatever follows.
pub proof fn law_what_a_step_ignores_or_refuses(m: IndexModel, e: WalkEntry, es: Seq<WalkEntry>)
    ensures
        e.is_root ==> walk_step(m, e) == Some(m),
        e.relative matches Some(c) && hidden_url(url_of_path(c@)) ==> walk_step(m, e) == Some(m),
        e.kind == EntryKind::Other && e.relative is Some ==> walk_step(m, e) == Some(m),
        !e.is_root && !hidden_name(e.file_name) && e.relative is None ==> walk_step(m, e) is None,
        walk_all(m, es) is None ==> walk_all(m, es.push(e)) is None,
{
    assert(es.push(e).drop_last() =~= es);
}

/// The root directory `/` is always listed, whatever was walked.
pub proof fn law_root_is_always_listed(es: Seq<WalkEntry>)
    ensures
        walk_all(initial_model(), es) matches Some(m) ==> m.dirs.contains_key(seq!['/']),
    decreases es.len(),
{
    if es.len() > 0 {
        law_root_is_always_listed(es.drop_last());
    }
}

/// A walked path that lies under the root with no segment starting with a dot.
pub open spec fn visible_path(e: WalkEntry) -> bool {
    e.relative matches Some(c) && !hidden_url(url_of_path(c@))
}

proof fn lemma_prefix_not_hidden(u: Seq<char>, n: int)
    requires
        !hidden_url(u),
        0 <= n <= u.len(),
    ensures
        !hidden_url(u.take(n)),
{
    let t = u.take(n);
    assert forall|i: int| 0 <= i && i + 1 < t.len() implies !(#[trigger] t[i] == '/' && t[i + 1] == '.') by {
        assert(t[i] == u[i] && t[i + 1] == u[i + 1]);
    }
}

proof fn lemma_push_slash_not_hidden(u: Seq<char>)
    requires
        !hidden_url(u),
    ensures
        !hidden_url(u.push('/')),
{
    let t = u.push('/');
    assert forall|i: int| 0 <= i && i + 1 < t.len() implies !(#[trigger] t[i] == '/' && t[i + 1] == '.') by {
        assert(t[i] == u[i]);
        if i + 1 < u.len() {
            assert(t[i + 1] == u[i + 1]);
        }
    }
}

proof fn lemma_parent_not_hidden(u: Seq<char>)
    requires
        !hidden_url(u),
    ensures
        !hidden_url(parent_url(u)),
{
    lemma_last_index_of(u, '/');
    let pos = last_index_of(u, '/');
    if pos > 0 {
        lemma_prefix_not_hidden(u, pos);
        lemma_push_slash_not_hidden(u.take(pos));
    } else {
        assert forall|i: int| 0 <= i && i + 1 < seq!['/'].len() implies !(#[trigger] seq!['/'][i]
            == '/' && seq!['/'][i + 1] == '.') by {}
    }
}

/// No URL of the index has a segment starting with a dot: hidden files, and everything
/// inside hidden directories, are never indexed, so never served.
pub proof fn law_index_has_no_hidden_segments(es: Seq<WalkEntry>)
    ensures
        walk_all(initial_model(), es) matches Some(m) ==> (forall|k: Seq<char>|
            #[trigger] m.files.contains_key(k) ==> !hidden_url(k)) && (forall|k: Seq<char>|
            #[trigger] m.dirs.contains_key(k) ==> !hidden_url(k)),
    decreases es.len(),
{
    if es.len() == 0 {
        assert forall|i: int| 0 <= i && i + 1 < seq!['/'].len() implies !(#[trigger] seq!['/'][i]
            == '/' && seq!['/'][i + 1] == '.') by {}
    } else {
        law_index_has_no_hidden_segments(es.drop_last());
        if let Some(m) = walk_all(initial_model(), es) {
            let m0 = walk_all(initial_model(), es.drop_last())->0;
            let e = es.last();
            if !e.is_root && !hidden_name(e.file_name) && e.relative is Some {
                let u = url_of_path(e.relative->0@);
                if !hidden_url(u) {
                    lemma_push_slash_not_hidden(u);
                    lemma_parent_not_hidden(u);
                    if ends_with_md(u) {
                        lemma_prefix_not_hidden(u, u.len() - 3);
                    }
                    assert(!hidden_url(file_url(u, e.fs_path@)));
                }
            }
        }
    }
}

/// Every file of the index is a regular file that was walked, is not hidden, lies under
/// the root outside any hidden directory, and is not the root: the index never holds a
/// hidden file or one outside the walk.
pub proof fn law_indexed_files_were_walked_visible_files(es: Seq<WalkEntry>)
    ensures
        walk_all(initial_model(), es) matches Some(m) ==> forall|k: Seq<char>|
            #[trigger] m.files.contains_key(k) ==> exists|i: int|
                0 <= i < es.len() && es[i].fs_path@ == m.files[k] && es[i].kind == EntryKind::File
                    && !es[i].is_root && !hidden_name(es[i].file_name) && visible_path(es[i]),
    decreases es.len(),
{
    if es.len() > 0 {
        let prev = es.drop_last();
        law_indexed_files_were_walked_visible_files(prev);
        if let Some(m) = walk_all(initial_model(), es) {
            let m0 = walk_all(initial_model(), prev)->0;
            let e = es.last();
            assert forall|k: Seq<char>| #[trigger] m.files.contains_key(k) implies exists|i: int|
                0 <= i < es.len() && es[i].fs_path@ == m.files[k] && es[i].kind == EntryKind::File
                    && !es[i].is_root && !hidden_name(es[i].file_name) && visible_path(es[i]) by {
                let n = es.len() - 1;
                if !e.is_root && !hidden_name(e.file_name) && e.kind == EntryKind::File
                    && visible_path(e) && k == file_url(url_of_path(e.relative->0@), e.fs_path@) {
                    assert(es[n] == e);
                } else {
                    assert(m0.files.contains_key(k));
                    let i = choose|i: int|
                        0 <= i < prev.len() && prev[i].fs_path@ == m0.files[k] && prev[i].kind
                            == EntryKind::File && !prev[i].is_root && !hidden_name(prev[i].file_name)
                            && visible_path(prev[i]);
                    assert(es[i] == prev[i]);
                }
            }
        }
    }
}

/// A URL that starts with `/`.
pub open spec fn starts_with_slash(u: Seq<char>) -> bool {
    u.len() > 0 && u[0] == '/'
}

/// The shape of an index: directory URLs start and end with `/`, file URLs start with
/// `/`, and every listed entry names a file or directory of the index.
pub open spec fn well_shaped(m: IndexModel) -> bool {
    &&& forall|d: Seq<char>| #[trigger] m.dirs.contains_key(d) ==> starts_with_slash(d) && d.last() == '/'
    &&& forall|k: Seq<char>| #[trigger] m.files.contains_key(k) ==> starts_with_slash(k)
    &&& forall|d: Seq<char>, i: int|
        m.dirs.contains_key(d) && 0 <= i < m.dirs[d].len() ==> (if (#[trigger] m.dirs[d][i]).is_dir {
            m.dirs.contains_key(m.dirs[d][i].url)
        } else {
            m.files.contains_key(m.dirs[d][i].url)
        })
}

proof fn lemma_step_keeps_shape(m: IndexModel, e: WalkEntry)
    requires
        well_shaped(m),
        walk_step(m, e) is Some,
    ensures
        well_shaped(walk_step(m, e)->0),
{
    if !e.is_root && !hidden_name(e.file_name) && e.relative is Some {
        let u = url_of_path(e.relative->0@);
        law_url_of_path_is_absolute(e.relative->0@);
        lemma_last_index_of(u, '/');
        if !hidden_url(u) {
            let m2 = walk_step(m, e)->0;
            let parent = parent_url(u);
            assert(starts_with_slash(parent) && parent.last() == '/');
            match e.kind {
                EntryKind::Dir => {
                    let d1 = with_dir(m.dirs, u.push('/'));
                    assert forall|d: Seq<char>, i: int|
                        m2.dirs.contains_key(d) && 0 <= i < m2.dirs[d].len() implies (if (
                        #[trigger] m2.dirs[d][i]).is_dir {
                            m2.dirs.contains_key(m2.dirs[d][i].url)
                        } else {
                            m2.files.contains_key(m2.dirs[d][i].url)
                        }) by {
                        if d == parent && i == m2.dirs[d].len() - 1 {
                        } else if d == parent {
                            assert(m2.dirs[d][i] == d1[d][i]);
                            if d != u.push('/') || m.dirs.contains_key(d) {
                                assert(d1[d][i] == m.dirs[d][i]);
                            }
                        } else if d == u.push('/') && !m.dirs.contains_key(d) {
                        } else {
                            assert(m2.dirs[d] == m.dirs[d]);
                        }
                    }
                },
                EntryKind::File => {
                    let f = file_url(u, e.fs_path@);
                    assert(starts_with_slash(f));
                    assert forall|d: Seq<char>, i: int|
                        m2.dirs.contains_key(d) && 0 <= i < m2.dirs[d].len() implies (if (
                        #[trigger] m2.dirs[d][i]).is_dir {
                            m2.dirs.contains_key(m2.dirs[d][i].url)
                        } else {
                            m2.files.contains_key(m2.dirs[d][i].url)
                        }) by {
                        if d == parent && i == m2.dirs[d].len() - 1 {
                        } else if d == parent {
                            if m.dirs.contains_key(d) {
                                assert(m2.dirs[d][i] == m.dirs[d][i]);
                            }
                        } else {
                            assert(m2.dirs[d] == m.dirs[d]);
                        }
                    }
                },
                EntryKind::Other => {},
            }
        }
    }
}

/// Every index built from a walk is well shaped: directory URLs start and end with `/`,
/// file URLs start with `/`, and every listed entry is itself in the index.
pub proof fn law_index_is_well_shaped(es: Seq<WalkEntry>)
    ensures
        walk_all(initial_model(), es) matches Some(m) ==> well_shaped(m),
    decreases es.len(),
{
    if es.len() == 0 {
        let m = initial_model();
        assert(m.dirs[seq!['/']].len() == 0);
    } else {
        law_index_is_well_shaped(es.drop_last());
        if let Some(m) = walk_all(initial_model(), es.drop_last()) {
            if walk_step(m, es.last()) is Some {
                lemma_step_keeps_shape(m, es.last());
            }
        }
    }
}

/// A walked path that the index holds as a file, at the clean URL `f`.
pub open spec fn indexes_file_at(e: WalkEntry, f: Seq<char>) -> bool {
    &&& !e.is_root
    &&& !hidden_name(e.file_name)
    &&& visible_path(e)
    &&& e.kind == EntryKind::File
    &&& file_url(url_of_path(e.relative->0@), e.fs_path@) == f
}

/// Every visible regular file of the walk is indexed at its clean URL (`guide.md` at
/// `/guide`, other files under their own name), unless a later path of the walk takes
/// the same URL.
pub proof fn law_every_visible_file_is_indexed(es: Seq<WalkEntry>, i: int, f: Seq<char>)
    requires
        0 <= i < es.len(),
        indexes_file_at(es[i], f),
        forall|j: int| i < j < es.len() ==> !indexes_file_at(#[trigger] es[j], f),
    ensures
        walk_all(initial_model(), es) matches Some(m) ==> m.files.contains_key(f) && m.files[f]
            == es[i].fs_path@,
    decreases es.len(),
{
    if let Some(m) = walk_all(initial_model(), es) {
        let prev = es.drop_last();
        let n = es.len() - 1;
        if i < n {
            assert forall|j: int| i < j < prev.len() implies !indexes_file_at(#[trigger] prev[j], f) by {
                assert(prev[j] == es[j]);
            }
            assert(prev[i] == es[i]);
            law_every_visible_file_is_indexed(prev, i, f);
            assert(!indexes_file_at(es[n], f));
        }
    }
}

/// A path component as `Path::components` yields it: a name is never empty and never
/// holds a `/`.
pub open spec fn plain_component(p: PathComponent) -> bool {
    match p {
        PathComponent::Normal(n) => n@.len() > 0 && !n@.contains('/'),
        PathComponent::Other => true,
    }
}

/// Every component of the walked path's relative path is plain, and a path other than
/// the root holds at least one name.
pub open spec fn plain_names(e: WalkEntry) -> bool {
    e.relative matches Some(c) ==> (forall|i: int| 0 <= i < c@.len() ==> plain_component(#[trigger] c@[i]))
        && (e.is_root || exists|i: int| 0 <= i < c@.len() && (#[trigger] c@[i]) is Normal)
}

proof fn lemma_components_url_nonempty(c: Seq<PathComponent>, i: int)
    requires
        0 <= i < c.len(),
        c[i] is Normal,
    ensures
        components_url(c).len() > 0,
    decreases c.len(),
{
    if i < c.len() - 1 {
        assert(c.drop_last()[i] == c[i]);
        lemma_components_url_nonempty(c.drop_last(), i);
    }
}

/// Every listed entry sits under its parent (the directory of its URL without trailing
/// slashes), and every indexed file has a URL that does not end with `/` and is listed,
/// as a file, in the directory of its URL.
pub open spec fn listed_under_parents(m: IndexModel) -> bool {
    &&& forall|d: Seq<char>, i: int|
        m.dirs.contains_key(d) && 0 <= i < m.dirs[d].len() ==> entry_under(d, #[trigger] m.dirs[d][i])
    &&& forall|k: Seq<char>| #[trigger] m.files.contains_key(k) ==> listed_file(m, k)
    &&& forall|k: Seq<char>| #[trigger] m.files.contains_key(k) ==> k.len() > 0 && k.last() != '/'
}

/// Entry `e` sits in directory `d`: `d` is the parent of its URL (without trailing
/// slashes), and that URL is `d` followed by the entry's name, a non-empty name with
/// no `/` (the last segment of the URL).
pub open spec fn entry_under(d: Seq<char>, e: DirEntryView) -> bool {
    &&& parent_url(trim_slashes(e.url)) == d
    &&& d + e.name == trim_slashes(e.url)
    &&& e.name.len() > 0
    &&& !e.name.contains('/')
}

/// The last segment of a URL that starts with `/` and does not end with `/` is a
/// non-empty name without `/`, and the URL is its parent followed by that name.
pub(crate) proof fn lemma_url_is_parent_then_name(v: Seq<char>)
    requires
        starts_with_slash(v),
        v.last() != '/',
    ensures
        parent_url(v) + file_name_of(v) == v,
        file_name_of(v).len() > 0,
        !file_name_of(v).contains('/'),
{
    assert(v.contains('/')) by {
        assert(v[0] == '/');
    }
    law_parent_then_name_is_the_url(v);
    lemma_last_index_of(v, '/');
    let pos = last_index_of(v, '/');
    let n = file_name_of(v);
    assert(pos >= 0) by {
        if pos < 0 {
            assert(v[0] != '/');
        }
    }
    assert(pos < v.len() - 1);
    assert(n =~= v.skip(pos + 1));
    assert forall|j: int| 0 <= j < n.len() implies n[j] != '/' by {
        assert(n[j] == v[pos + 1 + j]);
    }
}

/// The directory of `k` lists `k` as a file.
pub open spec fn listed_file(m: IndexModel, k: Seq<char>) -> bool {
    let d = parent_url(k);
    m.dirs.contains_key(d) && exists|i: int|
        0 <= i < m.dirs[d].len() && (#[trigger] m.dirs[d][i]).url == k && !m.dirs[d][i].is_dir
}

proof fn lemma_components_url_end(c: Seq<PathComponent>)
    requires
        forall|i: int| 0 <= i < c.len() ==> plain_component(#[trigger] c[i]),
    ensures
        components_url(c).len() > 0 ==> components_url(c).last() != '/',
    decreases c.len(),
{
    if c.len() > 0 {
        assert forall|i: int| 0 <= i < c.drop_last().len() implies plain_component(
            #[trigger] c.drop_last()[i],
        ) by {
            assert(c.drop_last()[i] == c[i]);
        }
        lemma_components_url_end(c.drop_last());
        assert(plain_component(c[c.len() - 1]));
        match c.last() {
            PathComponent::Normal(name) => {
                let rest = components_url(c.drop_last());
                assert((rest.push('/') + name@).last() == name@[name@.len() - 1]);
                assert(name@.contains(name@[name@.len() - 1]));
            },
            PathComponent::Other => {},
        }
    }
}

proof fn lemma_last_slash_before_md(u: Seq<char>)
    requires
        ends_with_md(u),
    ensures
        last_index_of(u, '/') == last_index_of(u.take(u.len() - 3), '/'),
{
    let a = u.drop_last();
    let b = a.drop_last();
    let c = b.drop_last();
    assert(u.last() == 'd' && a.last() == 'm' && b.last() == '.');
    assert(last_index_of(u, '/') == last_index_of(a, '/'));
    assert(last_index_of(a, '/') == last_index_of(b, '/'));
    assert(last_index_of(b, '/') == last_index_of(c, '/'));
    assert(c =~= u.take(u.len() - 3));
}

/// The clean URL of a file lies in the same directory as the file's URL, and carries
/// no trailing slash unless it is the root.
proof fn lemma_file_url_parent(u: Seq<char>, fs: Seq<char>)
    requires
        starts_with_slash(u),
        !hidden_url(u),
        u == seq!['/'] || u.last() != '/',
    ensures
        parent_url(file_url(u, fs)) == parent_url(u),
        parent_url(trim_slashes(file_url(u, fs))) == parent_url(u),
        u != seq!['/'] ==> file_url(u, fs).len() > 0 && file_url(u, fs).last() != '/',
        u != seq!['/'] ==> starts_with_slash(file_url(u, fs)),
{
    let f = file_url(u, fs);
    if u == seq!['/'] {
        assert(!ends_with_md(u));
        assert(seq!['/'].drop_last() =~= Seq::<char>::empty());
        assert(trim_slashes(Seq::<char>::empty()) == Seq::<char>::empty());
        assert(trim_slashes(f) == trim_slashes(f.drop_last()));
        assert(trim_slashes(f) == Seq::<char>::empty());
        assert(last_index_of(Seq::<char>::empty(), '/') == -1);
        assert(last_index_of(u, '/') == 0);
    } else if f != u {
        let n = u.len();
        assert(n >= 4);
        if u[n - 4] == '/' {
            assert(u[n - 4] == '/' && u[n - 3] == '.');
            assert(hidden_url(u));
        }
        assert(f.last() == u[n - 4]);
        lemma_last_slash_before_md(u);
        lemma_last_index_of(u, '/');
        let pos = last_index_of(u, '/');
        if pos > 0 {
            assert(f.take(pos) =~= u.take(pos));
        }
    }
}

proof fn lemma_step_keeps_listing(m: IndexModel, e: WalkEntry)
    requires
        listed_under_parents(m),
        plain_names(e),
        walk_step(m, e) is Some,
    ensures
        listed_under_parents(walk_step(m, e)->0),
{
    let m2 = walk_step(m, e)->0;
    if !e.is_root && !hidden_name(e.file_name) && e.relative is Some {
        let c = e.relative->0@;
        let u = url_of_path(c);
        law_url_of_path_is_absolute(c);
        lemma_components_url_end(c);
        let w = choose|i: int| 0 <= i < c.len() && (#[trigger] c[i]) is Normal;
        lemma_components_url_nonempty(c, w);
        if !hidden_url(u) {
            let parent = parent_url(u);
            assert(trim_slashes(u.push('/')) == u) by {
                assert(u.push('/').drop_last() =~= u);
                assert(trim_slashes(u.push('/')) == trim_slashes(u));
            }
            lemma_url_is_parent_then_name(u);
            assert forall|k: Seq<char>| #[trigger] m.files.contains_key(k) implies listed_file(m2, k) by {
                let d = parent_url(k);
                assert(listed_file(m, k));
                let i = choose|i: int|
                    0 <= i < m.dirs[d].len() && (#[trigger] m.dirs[d][i]).url == k && !m.dirs[d][i].is_dir;
                assert(m2.dirs.contains_key(d));
                assert(m2.dirs[d][i] == m.dirs[d][i]);
            }
            match e.kind {
                EntryKind::Dir => {
                    let d1 = with_dir(m.dirs, u.push('/'));
                    assert forall|d: Seq<char>, i: int|
                        m2.dirs.contains_key(d) && 0 <= i < m2.dirs[d].len() implies entry_under(
                        d,
                        #[trigger] m2.dirs[d][i],
                    ) by {
                        if d == parent && i == m2.dirs[d].len() - 1 {
                        } else if d == parent {
                            assert(m2.dirs[d][i] == d1[d][i]);
                            if d != u.push('/') || m.dirs.contains_key(d) {
                                assert(d1[d][i] == m.dirs[d][i]);
                            }
                        } else if d == u.push('/') && !m.dirs.contains_key(d) {
                        } else {
                            assert(m2.dirs[d] == m.dirs[d]);
                        }
                    }
                },
                EntryKind::File => {
                    let f = file_url(u, e.fs_path@);
                    lemma_file_url_parent(u, e.fs_path@);
                    assert(trim_slashes(f) == f);
                    lemma_url_is_parent_then_name(f);
                    assert forall|d: Seq<char>, i: int|
                        m2.dirs.contains_key(d) && 0 <= i < m2.dirs[d].len() implies entry_under(
                        d,
                        #[trigger] m2.dirs[d][i],
                    ) by {
                        if d == parent && i == m2.dirs[d].len() - 1 {
                        } else if d == parent {
                            if m.dirs.contains_key(d) {
                                assert(m2.dirs[d][i] == m.dirs[d][i]);
                            }
                        } else {
                            assert(m2.dirs[d] == m.dirs[d]);
                        }
                    }
                    assert forall|k: Seq<char>| #[trigger] m2.files.contains_key(k) implies listed_file(m2, k) by {
                        if k == f {
                            let last = m2.dirs[parent].len() - 1;
                            assert(m2.dirs[parent][last].url == f);
                        } else {
                            assert(m.files.contains_key(k));
                        }
                    }
                },
                EntryKind::Other => {},
            }
        }
    }
}

/// In an index built from a walk of plain paths, every listed entry sits under its
/// parent directory (`parent_dir_url` of its URL without trailing slashes is the
/// directory that lists it) and is named by the last segment of its URL (the URL is
/// the directory followed by the name), and every indexed file has a URL that does not end with
/// `/` and is listed as a file in the directory of its URL.
pub proof fn law_entries_sit_under_their_parent(es: Seq<WalkEntry>)
    requires
        forall|i: int| 0 <= i < es.len() ==> plain_names(#[trigger] es[i]),
    ensures
        walk_all(initial_model(), es) matches Some(m) ==> listed_under_parents(m),
    decreases es.len(),
{
    if es.len() == 0 {
        let m = initial_model();
        assert(m.dirs[seq!['/']].len() == 0);
    } else {
        let prev = es.drop_last();
        assert forall|i: int| 0 <= i < prev.len() implies plain_names(#[trigger] prev[i]) by {
            assert(prev[i] == es[i]);
        }
        law_entries_sit_under_their_parent(prev);
        if let Some(m) = walk_all(initial_model(), prev) {
            if walk_step(m, es.last()) is Some {
                assert(plain_names(es[es.len() - 1]));
                lemma_step_keeps_listing(m, es.last());
            }
        }
    }
}

/// A walk step keeps every listed directory and every entry already listed in it, in
/// place.
proof fn lemma_step_keeps_listed_entries(m: IndexModel, e: WalkEntry)
    requires
        walk_step(m, e) is Some,
    ensures
        forall|k: Seq<char>| #[trigger] m.dirs.contains_key(k) ==> walk_step(m, e)->0.dirs.contains_key(k)
            && walk_step(m, e)->0.dirs[k].len() >= m.dirs[k].len() && forall|j: int|
            0 <= j < m.dirs[k].len() ==> #[trigger] walk_step(m, e)->0.dirs[k][j] == m.dirs[k][j],
{
}

/// The listing of the directory of a walked path holds the entry of that path.
pub open spec fn lists_walked(m: IndexModel, e: WalkEntry) -> bool {
    let u = url_of_path(e.relative->0@);
    let d = parent_url(u);
    match e.kind {
        EntryKind::Dir => m.dirs.contains_key(u.push('/')) && m.dirs.contains_key(d) && exists|j: int|
            0 <= j < m.dirs[d].len() && #[trigger] m.dirs[d][j] == (DirEntryView {
                name: file_name_of(u),
                url: u.push('/'),
                is_dir: true,
            }),
        EntryKind::File => {
            let f = file_url(u, e.fs_path@);
            m.dirs.contains_key(d) && exists|j: int|
                0 <= j < m.dirs[d].len() && #[trigger] m.dirs[d][j] == (DirEntryView {
                    name: file_name_of(f),
                    url: f,
                    is_dir: false,
                })
        },
        EntryKind::Other => true,
    }
}

/// A path that the walk indexes: not the root, not hidden, under the root.
pub open spec fn indexed_path(e: WalkEntry) -> bool {
    !e.is_root && !hidden_name(e.file_name) && visible_path(e)
}

/// Every visible directory and regular file that the walk meets is listed in the
/// directory of its URL, under the last segment of its URL (a directory with a trailing
/// `/` and its own listing, a file at its clean URL), whatever paths the walk meets after it.
pub proof fn law_every_walked_path_is_listed(es: Seq<WalkEntry>, i: int)
    requires
        0 <= i < es.len(),
        indexed_path(es[i]),
    ensures
        walk_all(initial_model(), es) matches Some(m) ==> lists_walked(m, es[i]),
    decreases es.len(),
{
    if let Some(m) = walk_all(initial_model(), es) {
        let prev = es.drop_last();
        let n = es.len() - 1;
        let m0 = walk_all(initial_model(), prev)->0;
        if i < n {
            assert(prev[i] == es[i]);
            law_every_walked_path_is_listed(prev, i);
            lemma_step_keeps_listed_entries(m0, es[n]);
            let e = es[i];
            let u = url_of_path(e.relative->0@);
            let d = parent_url(u);
            if e.kind != EntryKind::Other {
                assert(m0.dirs.contains_key(d));
                let j = choose|j: int| 0 <= j < m0.dirs[d].len() && #[trigger] m0.dirs[d][j] == (
                DirEntryView {
                    name: if e.kind == EntryKind::Dir { file_name_of(u) } else { file_name_of(file_url(u, e.fs_path@)) },
                    url: if e.kind == EntryKind::Dir { u.push('/') } else { file_url(u, e.fs_path@) },
                    is_dir: e.kind == EntryKind::Dir,
                });
                assert(m.dirs[d][j] == m0.dirs[d][j]);
            }
        } else {
            let e = es[n];
            let u = url_of_path(e.relative->0@);
            let d = parent_url(u);
            if e.kind != EntryKind::Other {
                let last = m.dirs[d].len() - 1;
                assert(m.dirs[d][last].url == m.dirs[d][last].url);
            }
        }
    }
}

/// The URL of a path's child is the path's URL with one more segment: the child's name
/// is its last segment, and the directory that holds it is the path's URL with a `/`
/// (the root `/` for a path with no names). Other components add nothing to a URL.
pub proof fn law_child_url(c: Seq<PathComponent>, name: String)
    requires
        forall|i: int| 0 <= i < c.len() ==> plain_component(#[trigger] c[i]),
        name@.len() > 0,
        !name@.contains('/'),
    ensures
        file_name_of(url_of_path(c.push(PathComponent::Normal(name)))) == name@,
        parent_url(url_of_path(c.push(PathComponent::Normal(name)))) == (if components_url(c).len()
            == 0 {
            seq!['/']
        } else {
            url_of_path(c).push('/')
        }),
        url_of_path(c.push(PathComponent::Other)) == url_of_path(c),
{
    let c2 = c.push(PathComponent::Normal(name));
    assert(c2.drop_last() =~= c);
    assert(c.push(PathComponent::Other).drop_last() =~= c);
    let rest = components_url(c);
    let u = rest.push('/') + name@;
    assert(components_url(c2) == u);
    assert(url_of_path(c2) == u);
    lemma_last_index_of(u, '/');
    let pos = last_index_of(u, '/');
    assert(u[rest.len() as int] == '/');
    assert(pos >= rest.len()) by {
        if pos < rest.len() {
            assert(rest.len() > pos);
        }
    }
    assert(pos == rest.len()) by {
        if pos > rest.len() {
            assert(u[pos] == name@[pos - rest.len() - 1]);
            assert(name@.contains(u[pos]));
        }
    }
    assert(u.skip(pos + 1) =~= name@);
    if rest.len() > 0 {
        lemma_components_url(c);
        assert(u.take(pos) =~= rest);
    }
}

/// Once a walk has failed, walking further paths keeps it failed.
proof fn lemma_walk_all_stays_none(m: IndexModel, es: Seq<WalkEntry>, n: int)
    requires
        0 <= n <= es.len(),
        walk_all(m, es.take(n)) is None,
    ensures
        walk_all(m, es) is None,
    decreases es.len() - n,
{
    if n < es.len() {
        assert(es.take(n + 1).drop_last() =~= es.take(n));
        lemma_walk_all_stays_none(m, es, n + 1);
    } else {
        assert(es.take(n) =~= es);
    }
}

} // verus!
