//! A snapshot of one directory: its entries, kept directories first and then
//! by name, with aggregate and search queries over them.
use vstd::prelude::*;
use crate::entry::{entry_of, EntryView, FileInfo, FsError, Metadata};
use crate::text::{contains, is_substring, lex_le, lemma_lex_le_total, lower_of, lowercase, name_le};

verus! {

broadcast use vstd::seq_lib::group_to_multiset_ensures;

/// One child path of a listed directory, with its metadata where that could
/// be retrieved.
#[derive(Debug)]
pub struct Child {
    pub path: String,
    pub metadata: Option<Metadata>,
}

/// What one scan did: how many entries it kept, and which child paths it
/// skipped because their metadata could not be retrieved.
#[derive(Debug)]
pub struct ScanReport {
    pub count: usize,
    pub skipped: Vec<String>,
}

/// The views of a sequence of entries.
pub open spec fn views(v: Seq<FileInfo>) -> Seq<EntryView> {
    v.map_values(|f: FileInfo| f@)
}

/// A sequence of strings as character sequences.
pub open spec fn texts(v: Seq<String>) -> Seq<Seq<char>> {
    v.map_values(|s: String| s@)
}

/// The entries built from the children whose metadata could be read, in
/// listing order.
pub open spec fn child_entries(cs: Seq<Child>) -> Seq<EntryView>
    decreases cs.len(),
{
    if cs.len() == 0 {
        Seq::empty()
    } else {
        let rest = child_entries(cs.drop_last());
        match cs.last().metadata {
            Some(m) => rest.push(entry_of(cs.last().path@, m)),
            None => rest,
        }
    }
}

/// The paths of the children whose metadata could not be read, in listing
/// order.
pub open spec fn skipped_paths(cs: Seq<Child>) -> Seq<Seq<char>>
    decreases cs.len(),
{
    if cs.len() == 0 {
        Seq::empty()
    } else {
        let rest = skipped_paths(cs.drop_last());
        match cs.last().metadata {
            Some(_) => rest,
            None => rest.push(cs.last().path@),
        }
    }
}

/// `a` may stand before `b`: directories before files, and within one type
/// names in raw lexicographic order.
pub open spec fn entry_le(a: EntryView, b: EntryView) -> bool {
    (a.is_directory && !b.is_directory) || (a.is_directory == b.is_directory && lex_le(a.name, b.name))
}

/// Every adjacent pair of entries is in scan order.
pub open spec fn scan_ordered(s: Seq<EntryView>) -> bool {
    forall|i: int| 0 <= i < s.len() - 1 ==> entry_le(#[trigger] s[i], s[i + 1])
}

/// Of any two entries, one may stand before the other.
pub proof fn lemma_entry_le_total(a: EntryView, b: EntryView)
    ensures
        entry_le(a, b) || entry_le(b, a),
{
    lemma_lex_le_total(a.name, b.name);
}

/// Whether `a` may stand before `b` in scan order.
fn entry_le_exec(a: &FileInfo, b: &FileInfo) -> (r: bool)
    ensures
        r == entry_le(a@, b@),
{
    if a.is_directory != b.is_directory {
        a.is_directory
    } else {
        name_le(a.name.as_str(), b.name.as_str())
    }
}

/// Inserts `x` into scan-ordered `v`, after every entry that may stand before
/// it.
fn insert_in_scan_order(v: &mut Vec<FileInfo>, x: FileInfo)
    requires
        scan_ordered(views(old(v)@)),
    ensures
        scan_ordered(views(final(v)@)),
        views(final(v)@).to_multiset() == views(old(v)@).to_multiset().insert(x@),
{
    let mut p: usize = 0;
    while p < v.len() && entry_le_exec(&v[p], &x)
        invariant
            p <= v@.len(),
            v@ == old(v)@,
            forall|j: int| 0 <= j < p ==> entry_le(#[trigger] v@[j]@, x@),
        decreases v@.len() - p,
    {
        p = p + 1;
    }
    proof {
        if p < v@.len() {
            lemma_entry_le_total(v@[p as int]@, x@);
        }
    }
    let ghost before = views(v@);
    v.insert(p, x);
    proof {
        let after = views(v@);
        assert(after =~= before.insert(p as int, x@));
        assert forall|i: int| 0 <= i < after.len() - 1 implies entry_le(#[trigger] after[i], after[i + 1]) by {
            if i < p - 1 {
                assert(entry_le(before[i], before[i + 1]));
            } else if i == p - 1 {
            } else if i == p {
            } else {
                assert(entry_le(before[i - 1], before[i]));
            }
        }
    }
}

/// The snapshot of one directory.
pub struct FileManager {
    current_path: String,
    files: Vec<FileInfo>,
}

impl View for FileManager {
    type V = Seq<EntryView>;

    /// The entries of the last scan, in scan order.
    closed spec fn view(&self) -> Seq<EntryView> {
        views(self.files@)
    }
}

impl FileManager {
    /// The directory this snapshot inspects.
    pub closed spec fn target(&self) -> Seq<char> {
        self.current_path@
    }

    /// Creates the snapshot of the directory at `path` and scans it, given
    /// what listing it produced (`None` where it could not be listed).
    pub fn new(path: String, listing: Option<Vec<Child>>) -> (r: Result<
        (FileManager, ScanReport),
        FsError,
    >)
        ensures
            match listing {
                None => r is Err && r->Err_0 == FsError::ListUnavailable,
                Some(cs) => r is Ok && r->Ok_0.0.target() == path@ && scanned_from(
                    r->Ok_0.0@,
                    r->Ok_0.1,
                    cs@,
                ),
            },
    {
        let mut manager = FileManager { current_path: path, files: Vec::new() };
        match manager.scan_directory(listing) {
            Ok(report) => Ok((manager, report)),
            Err(e) => Err(e),
        }
    }

    /// Replaces the entries with those of a new listing of the directory.
    /// Children whose metadata is missing are skipped and reported; the rest
    /// are kept directories first, then by name. With no listing the scan
    /// fails with `ListUnavailable` and leaves no entries.
    pub fn scan_directory(&mut self, listing: Option<Vec<Child>>) -> (r: Result<ScanReport, FsError>)
        ensures
            final(self).target() == old(self).target(),
            match listing {
                None => r is Err && r->Err_0 == FsError::ListUnavailable && final(self)@.len() == 0,
                Some(cs) => r is Ok && scanned_from(final(self)@, r->Ok_0, cs@),
            },
    {
        self.files.clear();
        let cs = match listing {
            None => {
                assert(self@ =~= Seq::<EntryView>::empty());
                return Err(FsError::ListUnavailable);
            },
            Some(cs) => cs,
        };
        let mut skipped: Vec<String> = Vec::new();
        let mut i: usize = 0;
        proof {
            assert(views(self.files@) =~= Seq::<EntryView>::empty());
            assert(cs@.take(0) =~= Seq::<Child>::empty());
        }
        while i < cs.len()
            invariant
                i <= cs@.len(),
                self.current_path == old(self).current_path,
                scan_ordered(views(self.files@)),
                views(self.files@).to_multiset() == child_entries(cs@.take(i as int)).to_multiset(),
                texts(skipped@) == skipped_paths(cs@.take(i as int)),
            decreases cs@.len() - i,
        {
            let c = &cs[i];
            proof {
                assert(cs@.take(i + 1).drop_last() =~= cs@.take(i as int));
            }
            match FileInfo::new(c.path.clone(), c.metadata) {
                Ok(info) => {
                    insert_in_scan_order(&mut self.files, info);
                },
                Err(_) => {
                    skipped.push(c.path.clone());
                    assert(texts(skipped@) =~= skipped_paths(cs@.take(i + 1)));
                },
            }
            i = i + 1;
        }
        proof {
            assert(cs@.take(cs@.len() as int) =~= cs@);
        }
        Ok(ScanReport { count: self.files.len(), skipped })
    }
}

/// `entries` and `report` are what a scan of the listing `cs` gives: the
/// readable children's entries, in scan order, and the skipped paths.
pub open spec fn scanned_from(entries: Seq<EntryView>, report: ScanReport, cs: Seq<Child>) -> bool {
    &&& entries.to_multiset() == child_entries(cs).to_multiset()
    &&& scan_ordered(entries)
    &&& report.count == entries.len()
    &&& texts(report.skipped@) == skipped_paths(cs)
}

/// The directories among the entries, in order.
pub open spec fn dirs_of(s: Seq<EntryView>) -> Seq<EntryView> {
    s.filter(|e: EntryView| e.is_directory)
}

/// The files (non-directories) among the entries, in order.
pub open spec fn files_of(s: Seq<EntryView>) -> Seq<EntryView> {
    s.filter(|e: EntryView| !e.is_directory)
}

/// The sum of the sizes of all the entries.
pub open spec fn size_sum(s: Seq<EntryView>) -> nat
    decreases s.len(),
{
    if s.len() == 0 {
        0
    } else {
        size_sum(s.drop_last()) + s.last().size as nat
    }
}

/// The sum of the sizes of the entries that are not directories.
pub open spec fn total_size_of(s: Seq<EntryView>) -> nat
    decreases s.len(),
{
    if s.len() == 0 {
        0
    } else {
        total_size_of(s.drop_last()) + if s.last().is_directory {
            0
        } else {
            s.last().size as nat
        }
    }
}

proof fn lemma_total_size_prefix(s: Seq<EntryView>, i: int)
    requires
        0 <= i <= s.len(),
    ensures
        total_size_of(s.take(i)) <= total_size_of(s),
    decreases s.len() - i,
{
    if i < s.len() {
        lemma_total_size_prefix(s, i + 1);
        assert(s.take(i + 1).drop_last() =~= s.take(i));
    } else {
        assert(s.take(i) =~= s);
    }
}

/// The directory and file counts together make up every entry.
pub proof fn lemma_counts_cover_entries(s: Seq<EntryView>)
    ensures
        dirs_of(s).len() + files_of(s).len() == s.len(),
    decreases s.len(),
{
    reveal(Seq::filter);
    if s.len() > 0 {
        lemma_counts_cover_entries(s.drop_last());
    }
}

/// The total size counts no directory: it is the sum of the file sizes
/// alone, and it is zero when there are no files.
pub proof fn lemma_total_size_excludes_directories(s: Seq<EntryView>)
    ensures
        total_size_of(s) == size_sum(files_of(s)),
        files_of(s).len() == 0 ==> total_size_of(s) == 0,
    decreases s.len(),
{
    reveal(Seq::filter);
    if s.len() > 0 {
        let rest = s.drop_last();
        lemma_total_size_excludes_directories(rest);
        assert(files_of(s) == if s.last().is_directory {
            files_of(rest)
        } else {
            files_of(rest).push(s.last())
        });
        assert(files_of(rest).push(s.last()).drop_last() =~= files_of(rest));
    }
}

/// Directories do not count towards the total: two snapshots whose files
/// are the same, in the same order, have the same total, whatever
/// directories either holds.
pub proof fn lemma_total_size_ignores_directories(s1: Seq<EntryView>, s2: Seq<EntryView>)
    requires
        files_of(s1) == files_of(s2),
    ensures
        total_size_of(s1) == total_size_of(s2),
{
    lemma_total_size_excludes_directories(s1);
    lemma_total_size_excludes_directories(s2);
}

impl FileManager {
    /// The sum of the sizes of the entries that are not directories.
    pub fn get_total_size(&self) -> (r: u64)
        requires
            total_size_of(self@) <= u64::MAX,
        ensures
            r == total_size_of(self@),
    {
        let ghost s = self@;
        let mut total: u64 = 0;
        let mut i: usize = 0;
        proof {
            assert(s.take(0) =~= Seq::<EntryView>::empty());
        }
        while i < self.files.len()
            invariant
                s == views(self.files@),
                total_size_of(s) <= u64::MAX,
                i <= s.len(),
                total == total_size_of(s.take(i as int)),
            decreases s.len() - i,
        {
            proof {
                assert(s.take(i + 1).drop_last() =~= s.take(i as int));
                lemma_total_size_prefix(s, i + 1);
            }
            if !self.files[i].is_directory {
                total = total + self.files[i].size;
            }
            i = i + 1;
        }
        proof {
            assert(s.take(s.len() as int) =~= s);
        }
        total
    }

    /// The number of directories and the number of files among the entries.
    pub fn count_by_type(&self) -> (r: (usize, usize))
        ensures
            r.0 == dirs_of(self@).len(),
            r.1 == files_of(self@).len(),
            r.0 + r.1 == self@.len(),
    {
        let ghost s = self@;
        let mut directories: usize = 0;
        let mut i: usize = 0;
        proof {
            assert(s.take(0) =~= Seq::<EntryView>::empty());
        }
        while i < self.files.len()
            invariant
                s == views(self.files@),
                i <= s.len(),
                directories == dirs_of(s.take(i as int)).len(),
                directories <= i,
            decreases s.len() - i,
        {
            proof {
                assert(s.take(i + 1).drop_last() =~= s.take(i as int));
                assert(s.take(i + 1).last() == self.files@[i as int]@);
                reveal(Seq::filter);
                assert(dirs_of(s.take(i + 1)) == if self.files@[i as int].is_directory {
                    dirs_of(s.take(i as int)).push(s.take(i + 1).last())
                } else {
                    dirs_of(s.take(i as int))
                });
            }
            if self.files[i].is_directory {
                directories = directories + 1;
            }
            i = i + 1;
        }
        proof {
            assert(s.take(s.len() as int) =~= s);
            lemma_counts_cover_entries(s);
        }
        (directories, self.files.len() - directories)
    }
}

/// The views of a sequence of borrowed entries.
pub open spec fn ref_views(v: Seq<&FileInfo>) -> Seq<EntryView> {
    v.map_values(|f: &FileInfo| f@)
}

/// The entries whose lowercase name holds the lowercase query, in order.
pub open spec fn search_result(s: Seq<EntryView>, query: Seq<char>) -> Seq<EntryView> {
    s.filter(|e: EntryView| is_substring(lower_of(query), lower_of(e.name)))
}

/// Sizes never grow from one entry to any later one.
pub open spec fn nonincreasing(s: Seq<EntryView>) -> bool {
    forall|i: int, j: int| 0 <= i < j < s.len() ==> #[trigger] s[i].size >= #[trigger] s[j].size
}

/// `r` is the first `n` files of `s` (all of them, if fewer) once the files
/// are put in non-increasing order of size.
pub open spec fn is_largest(r: Seq<EntryView>, s: Seq<EntryView>, n: nat) -> bool {
    exists|t: Seq<EntryView>|
        #![trigger t.to_multiset()]
        t.to_multiset() == files_of(s).to_multiset() && nonincreasing(t) && r == if n < t.len() {
            t.take(n as int)
        } else {
            t
        }
}

/// An empty query matches every entry.
proof fn lemma_empty_query_matches_all(s: Seq<EntryView>, query: Seq<char>)
    requires
        lower_of(query).len() == 0,
    ensures
        search_result(s, query) == s,
    decreases s.len(),
{
    reveal(Seq::filter);
    if s.len() > 0 {
        lemma_empty_query_matches_all(s.drop_last(), query);
        let name = lower_of(s.last().name);
        assert(name.subrange(0, 0 + lower_of(query).len() as int) =~= lower_of(query));
        assert(is_substring(lower_of(query), name));
        assert(s.drop_last().push(s.last()) =~= s);
    }
}

/// Searching depends on the query only through its lowercase form, so two
/// queries that differ only in case find the same entries.
pub proof fn lemma_search_ignores_case(s: Seq<EntryView>, q1: Seq<char>, q2: Seq<char>)
    requires
        lower_of(q1) == lower_of(q2),
    ensures
        search_result(s, q1) == search_result(s, q2),
{
    let p1 = |e: EntryView| is_substring(lower_of(q1), lower_of(e.name));
    let p2 = |e: EntryView| is_substring(lower_of(q2), lower_of(e.name));
    assert(p1 == p2);
}

/// What the largest files query returns has `min(n, file count)` entries,
/// in non-increasing order of size, and holds no directory.
pub proof fn lemma_largest_shape(r: Seq<EntryView>, s: Seq<EntryView>, n: nat)
    requires
        is_largest(r, s, n),
    ensures
        r.len() == if n < files_of(s).len() {
            n
        } else {
            files_of(s).len()
        },
        nonincreasing(r),
        forall|i: int| 0 <= i < r.len() ==> !(#[trigger] r[i]).is_directory,
{
    let t = choose|t: Seq<EntryView>|
        #![trigger t.to_multiset()]
        t.to_multiset() == files_of(s).to_multiset() && nonincreasing(t) && r == if n < t.len() {
            t.take(n as int)
        } else {
            t
        };
    assert(t.to_multiset().len() == t.len());
    assert(files_of(s).to_multiset().len() == files_of(s).len());
    assert forall|i: int| 0 <= i < r.len() implies !(#[trigger] r[i]).is_directory by {
        assert(r[i] == t[i]);
        assert(t.contains(t[i]));
        assert(t.to_multiset().count(t[i]) > 0);
        assert(files_of(s).contains(t[i]));
        let k = choose|k: int| 0 <= k < files_of(s).len() && files_of(s)[k] == t[i];
        s.lemma_filter_pred(|e: EntryView| !e.is_directory, k);
    }
}

/// Whether the lowercase query occurs in the lowercase name.
pub fn matches_folded(folded_name: &str, folded_query: &str) -> (r: bool)
    ensures
        r == is_substring(folded_query@, folded_name@),
{
    contains(folded_name, folded_query)
}

impl FileManager {
    /// The entries whose name contains `query`, ignoring case, in scan
    /// order. An empty query matches every entry.
    pub fn search_files(&self, query: &str) -> (r: Vec<&FileInfo>)
        ensures
            ref_views(r@) == search_result(self@, query@),
            query@.len() == 0 ==> ref_views(r@) == self@,
    {
        let ghost s = self@;
        let folded_query = lowercase(query);
        let mut found: Vec<&FileInfo> = Vec::new();
        let mut i: usize = 0;
        proof {
            assert(s.take(0) =~= Seq::<EntryView>::empty());
            assert(ref_views(found@) =~= Seq::<EntryView>::empty());
            reveal(Seq::filter);
        }
        while i < self.files.len()
            invariant
                s == views(self.files@),
                i <= s.len(),
                folded_query@ == lower_of(query@),
                ref_views(found@) == search_result(s.take(i as int), query@),
            decreases s.len() - i,
        {
            let f = &self.files[i];
            let folded_name = lowercase(f.name.as_str());
            let hit = matches_folded(folded_name.as_str(), folded_query.as_str());
            proof {
                assert(s.take(i + 1).drop_last() =~= s.take(i as int));
                assert(s.take(i + 1).last() == f@);
                reveal(Seq::filter);
            }
            if hit {
                found.push(f);
            }
            proof {
                assert(ref_views(found@) =~= search_result(s.take(i + 1), query@));
            }
            i = i + 1;
        }
        proof {
            assert(s.take(s.len() as int) =~= s);
            if query@.len() == 0 {
                lemma_empty_query_matches_all(s, query@);
            }
        }
        found
    }

    /// At most `count` files (directories left out), largest first.
    pub fn get_largest_files(&self, count: usize) -> (r: Vec<&FileInfo>)
        ensures
            is_largest(ref_views(r@), self@, count as nat),
    {
        let ghost s = self@;
        let mut sorted: Vec<&FileInfo> = Vec::new();
        let mut i: usize = 0;
        proof {
            assert(s.take(0) =~= Seq::<EntryView>::empty());
            assert(ref_views(sorted@) =~= Seq::<EntryView>::empty());
            reveal(Seq::filter);
        }
        while i < self.files.len()
            invariant
                s == views(self.files@),
                i <= s.len(),
                nonincreasing(ref_views(sorted@)),
                ref_views(sorted@).to_multiset() == files_of(s.take(i as int)).to_multiset(),
            decreases s.len() - i,
        {
            let f = &self.files[i];
            proof {
                assert(s.take(i + 1).drop_last() =~= s.take(i as int));
                assert(s.take(i + 1).last() == f@);
                reveal(Seq::filter);
            }
            if !f.is_directory {
                let mut p: usize = 0;
                while p < sorted.len() && sorted[p].size >= f.size
                    invariant
                        p <= sorted@.len(),
                        forall|j: int| 0 <= j < p ==> (#[trigger] sorted@[j]).size >= f.size,
                    decreases sorted@.len() - p,
                {
                    p = p + 1;
                }
                let ghost before = ref_views(sorted@);
                sorted.insert(p, f);
                proof {
                    let after = ref_views(sorted@);
                    assert(after =~= before.insert(p as int, f@));
                    assert forall|a: int, b: int| 0 <= a < b < after.len() implies #[trigger] after[a].size
                        >= #[trigger] after[b].size by {
                        if b < p {
                        } else if b == p {
                            assert(after[a] == before[a]);
                        } else if a < p {
                            assert(after[b] == before[b - 1]);
                            assert(before[p as int].size < f.size);
                        } else if a == p {
                            assert(after[b] == before[b - 1]);
                            assert(before[p as int].size < f.size);
                            if b - 1 > p {
                                assert(before[p as int].size >= before[b - 1].size);
                            }
                        } else {
                            assert(after[a] == before[a - 1]);
                            assert(after[b] == before[b - 1]);
                        }
                    }
                }
            }
            i = i + 1;
        }
        proof {
            assert(s.take(s.len() as int) =~= s);
        }
        let ghost t = ref_views(sorted@);
        sorted.truncate(count);
        proof {
            if (count as nat) < t.len() {
                assert(ref_views(sorted@) =~= t.take(count as int));
            } else {
                assert(ref_views(sorted@) =~= t);
            }
        }
        sorted
    }
}

impl FileManager {
    /// The directory this snapshot inspects.
    pub fn current_path(&self) -> (r: &String)
        ensures
            r@ == self.target(),
    {
        &self.current_path
    }

    /// The entries of the last scan, in scan order.
    pub fn files(&self) -> (r: &Vec<FileInfo>)
        ensures
            views(r@) == self@,
    {
        &self.files
    }
}

/// No two children of a listing have the same path.
pub open spec fn distinct_paths(cs: Seq<Child>) -> bool {
    forall|i: int, j: int| 0 <= i < j < cs.len() ==> #[trigger] cs[i].path@ != #[trigger] cs[j].path@
}

proof fn lemma_scan_sizes(cs: Seq<Child>)
    ensures
        child_entries(cs).len() + skipped_paths(cs).len() == cs.len(),
    decreases cs.len(),
{
    if cs.len() > 0 {
        lemma_scan_sizes(cs.drop_last());
    }
}

proof fn lemma_entry_from_readable_child(cs: Seq<Child>, k: int)
    requires
        0 <= k < child_entries(cs).len(),
    ensures
        exists|i: int|
            0 <= i < cs.len() && (#[trigger] cs[i]).metadata is Some && cs[i].path@ == child_entries(cs)[k].path,
    decreases cs.len(),
{
    let rest = cs.drop_last();
    if k < child_entries(rest).len() {
        lemma_entry_from_readable_child(rest, k);
        let i = choose|i: int|
            0 <= i < rest.len() && (#[trigger] rest[i]).metadata is Some && rest[i].path@ == child_entries(rest)[k].path;
        assert(cs[i] == rest[i]);
    } else {
        assert(cs[cs.len() - 1] == cs.last());
    }
}

proof fn lemma_skipped_from_unreadable_child(cs: Seq<Child>, k: int)
    requires
        0 <= k < skipped_paths(cs).len(),
    ensures
        exists|j: int| 0 <= j < cs.len() && (#[trigger] cs[j]).metadata is None && cs[j].path@ == skipped_paths(cs)[k],
    decreases cs.len(),
{
    let rest = cs.drop_last();
    if k < skipped_paths(rest).len() {
        lemma_skipped_from_unreadable_child(rest, k);
        let j = choose|j: int|
            0 <= j < rest.len() && (#[trigger] rest[j]).metadata is None && rest[j].path@ == skipped_paths(rest)[k];
        assert(cs[j] == rest[j]);
    } else {
        assert(cs[cs.len() - 1] == cs.last());
    }
}

/// A scan keeps one entry for each child it did not skip. Where the children's
/// paths are distinct, no kept entry has the path of a skipped child.
pub proof fn lemma_skipped_children_left_out(entries: Seq<EntryView>, report: ScanReport, cs: Seq<Child>)
    requires
        scanned_from(entries, report, cs),
    ensures
        entries.len() + report.skipped@.len() == cs.len(),
        distinct_paths(cs) ==> forall|k: int, i: int|
            0 <= k < entries.len() && 0 <= i < report.skipped@.len() ==> (#[trigger] entries[k]).path
                != (#[trigger] report.skipped@[i])@,
{
    lemma_scan_sizes(cs);
    assert(entries.to_multiset().len() == entries.len());
    assert(child_entries(cs).to_multiset().len() == child_entries(cs).len());
    assert(texts(report.skipped@).len() == report.skipped@.len());
    if distinct_paths(cs) {
        assert forall|k: int, i: int|
            0 <= k < entries.len() && 0 <= i < report.skipped@.len() implies (#[trigger] entries[k]).path
                != (#[trigger] report.skipped@[i])@ by {
            assert(entries.contains(entries[k]));
            assert(entries.to_multiset().count(entries[k]) > 0);
            assert(child_entries(cs).contains(entries[k]));
            let kk = choose|kk: int| 0 <= kk < child_entries(cs).len() && child_entries(cs)[kk] == entries[k];
            lemma_entry_from_readable_child(cs, kk);
            let a = choose|a: int|
                0 <= a < cs.len() && (#[trigger] cs[a]).metadata is Some && cs[a].path@ == child_entries(cs)[kk].path;
            assert(texts(report.skipped@)[i] == report.skipped@[i]@);
            lemma_skipped_from_unreadable_child(cs, i);
            let b = choose|b: int| 0 <= b < cs.len() && (#[trigger] cs[b]).metadata is None && cs[b].path@ == skipped_paths(cs)[i];
            assert(a != b);
            if a < b {
                assert(cs[a].path@ != cs[b].path@);
            } else {
                assert(cs[b].path@ != cs[a].path@);
            }
        }
    }
}

} // verus!
