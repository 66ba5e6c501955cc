//! An in-memory model of the directory tree that a scan works on.
//!
//! The traversal of the real filesystem happens at the boundary; what the
//! scanner verifies against is this snapshot: directories with named files
//! and subdirectories. Sizes, entry lookups and the "bytes under a set of
//! target directories" sum are all defined here, together with the lemmas
//! that bound them.

use vstd::prelude::*;

verus! {

/// A regular file: its name and its size in bytes.
pub struct FsFile {
    pub name: Vec<u8>,
    pub size: u64,
}

/// A directory: its name, its regular files and its subdirectories.
pub struct FsDir {
    pub name: Vec<u8>,
    pub files: Vec<FsFile>,
    pub subdirs: Vec<FsDir>,
}

/// Mathematical image of a file.
#[verifier::ext_equal]
pub struct FileV {
    pub name: Seq<u8>,
    pub size: u64,
}

/// Mathematical image of a directory.
#[verifier::ext_equal]
pub struct DirV {
    pub name: Seq<u8>,
    pub files: Seq<FileV>,
    pub subdirs: Seq<DirV>,
}

pub open spec fn file_v(f: FsFile) -> FileV {
    FileV { name: f.name@, size: f.size }
}

pub open spec fn files_v(s: Seq<FsFile>) -> Seq<FileV> {
    s.map_values(|f: FsFile| file_v(f))
}

pub open spec fn dirs_v(s: Seq<FsDir>) -> Seq<DirV>
    decreases s,
{
    if s.len() == 0 {
        Seq::empty()
    } else {
        seq![dir_v(s[0])] + dirs_v(s.drop_first())
    }
}

pub open spec fn dir_v(d: FsDir) -> DirV
    decreases d,
{
    DirV { name: d.name@, files: files_v(d.files@), subdirs: dirs_v(d.subdirs@) }
}

impl View for FsDir {
    type V = DirV;

    open spec fn view(&self) -> DirV {
        dir_v(*self)
    }
}

pub proof fn lemma_dirs_v_index(s: Seq<FsDir>)
    ensures
        dirs_v(s).len() == s.len(),
        forall|i: int| 0 <= i < s.len() ==> dirs_v(s)[i] == dir_v(s[i]),
    decreases s,
{
    if s.len() > 0 {
        lemma_dirs_v_index(s.drop_first());
        assert(forall|i: int|
            1 <= i < s.len() ==> dirs_v(s)[i] == dirs_v(s.drop_first())[i - 1] && s.drop_first()[i
                - 1] == s[i]);
    }
}

/// Total bytes in a sequence of files.
pub open spec fn sum_files(s: Seq<FileV>) -> nat
    decreases s,
{
    if s.len() == 0 {
        0
    } else {
        (s[0].size + sum_files(s.drop_first())) as nat
    }
}

/// Total bytes in a sequence of directories.
pub open spec fn sum_dirs(s: Seq<DirV>) -> nat
    decreases s,
{
    if s.len() == 0 {
        0
    } else {
        dv_size(s[0]) + sum_dirs(s.drop_first())
    }
}

/// Total bytes of the regular files anywhere under a directory.
pub open spec fn dv_size(v: DirV) -> nat
    decreases v,
{
    sum_files(v.files) + sum_dirs(v.subdirs)
}

pub proof fn lemma_sum_files_append(a: Seq<FileV>, b: Seq<FileV>)
    ensures
        sum_files(a + b) == sum_files(a) + sum_files(b),
    decreases a,
{
    if a.len() == 0 {
        assert(a + b =~= b);
    } else {
        assert((a + b).drop_first() =~= a.drop_first() + b);
        lemma_sum_files_append(a.drop_first(), b);
    }
}

pub proof fn lemma_sum_dirs_append(a: Seq<DirV>, b: Seq<DirV>)
    ensures
        sum_dirs(a + b) == sum_dirs(a) + sum_dirs(b),
    decreases a,
{
    if a.len() == 0 {
        assert(a + b =~= b);
    } else {
        assert((a + b).drop_first() =~= a.drop_first() + b);
        lemma_sum_dirs_append(a.drop_first(), b);
    }
}

/// One directory of a sequence holds no more bytes than the whole sequence.
pub proof fn lemma_sum_dirs_bounds_element(s: Seq<DirV>, i: int)
    requires
        0 <= i < s.len(),
    ensures
        dv_size(s[i]) <= sum_dirs(s),
    decreases s,
{
    if i > 0 {
        lemma_sum_dirs_bounds_element(s.drop_first(), i - 1);
    }
}

/// Whether the directory has an entry (file or subdirectory) of this name.
pub open spec fn has_entry(v: DirV, name: Seq<u8>) -> bool {
    (exists|i: int| 0 <= i < v.files.len() && v.files[i].name == name) || (exists|i: int|
        0 <= i < v.subdirs.len() && v.subdirs[i].name == name)
}

/// The first subdirectory with the given name, if any.
pub open spec fn find_sub(s: Seq<DirV>, name: Seq<u8>) -> Option<DirV>
    decreases s,
{
    if s.len() == 0 {
        None
    } else if s[0].name == name {
        Some(s[0])
    } else {
        find_sub(s.drop_first(), name)
    }
}

pub proof fn lemma_find_sub_in_seq(s: Seq<DirV>, name: Seq<u8>)
    requires
        find_sub(s, name) is Some,
    ensures
        exists|i: int| 0 <= i < s.len() && s[i] == find_sub(s, name)->0,
    decreases s,
{
    if s.len() > 0 && s[0].name != name {
        lemma_find_sub_in_seq(s.drop_first(), name);
        let i = choose|i: int|
            0 <= i < s.drop_first().len() && s.drop_first()[i] == find_sub(s, name)->0;
        assert(s[i + 1] == find_sub(s, name)->0);
    }
}

/// The directory reached by following `rel` from `v`, if every component
/// exists.
pub open spec fn dir_at(v: DirV, rel: Seq<Seq<u8>>) -> Option<DirV>
    decreases rel.len(),
{
    if rel.len() == 0 {
        Some(v)
    } else {
        match find_sub(v.subdirs, rel[0]) {
            Some(c) => dir_at(c, rel.drop_first()),
            None => None,
        }
    }
}

/// A directory reached from `v` holds no more bytes than `v`.
pub proof fn lemma_dir_at_size(v: DirV, rel: Seq<Seq<u8>>)
    requires
        dir_at(v, rel) is Some,
    ensures
        dv_size(dir_at(v, rel)->0) <= dv_size(v),
    decreases rel.len(),
{
    if rel.len() > 0 {
        let c = find_sub(v.subdirs, rel[0])->0;
        lemma_find_sub_in_seq(v.subdirs, rel[0]);
        let i = choose|i: int| 0 <= i < v.subdirs.len() && v.subdirs[i] == c;
        lemma_sum_dirs_bounds_element(v.subdirs, i);
        lemma_dir_at_size(c, rel.drop_first());
    }
}

/// Whether one of the relative paths is empty: the walk has arrived inside
/// a target.
pub open spec fn contains_empty(tps: Seq<Seq<Seq<u8>>>) -> bool {
    exists|i: int| 0 <= i < tps.len() && tps[i].len() == 0
}

/// The paths that continue into a child of this name, each shortened by
/// that first component.
pub open spec fn step_paths(tps: Seq<Seq<Seq<u8>>>, name: Seq<u8>) -> Seq<Seq<Seq<u8>>>
    decreases tps,
{
    if tps.len() == 0 {
        Seq::empty()
    } else {
        let rest = step_paths(tps.drop_first(), name);
        if tps[0].len() > 0 && tps[0][0] == name {
            seq![tps[0].drop_first()] + rest
        } else {
            rest
        }
    }
}

/// Total bytes of the regular files lying strictly under one of the target
/// paths. Files outside every target are not counted.
pub open spec fn targets_size(v: DirV, tps: Seq<Seq<Seq<u8>>>) -> nat
    decreases v, 1int,
{
    if contains_empty(tps) {
        dv_size(v)
    } else {
        targets_size_subs(v.subdirs, tps)
    }
}

pub open spec fn targets_size_subs(s: Seq<DirV>, tps: Seq<Seq<Seq<u8>>>) -> nat
    decreases s, 0int,
{
    if s.len() == 0 {
        0
    } else {
        targets_size(s[0], step_paths(tps, s[0].name)) + targets_size_subs(s.drop_first(), tps)
    }
}

/// What lies under the targets is no more than what lies under the
/// directory.
pub proof fn lemma_targets_size_le(v: DirV, tps: Seq<Seq<Seq<u8>>>)
    ensures
        targets_size(v, tps) <= dv_size(v),
    decreases v, 1int,
{
    if !contains_empty(tps) {
        lemma_targets_size_subs_le(v.subdirs, tps);
    }
}

pub proof fn lemma_targets_size_subs_le(s: Seq<DirV>, tps: Seq<Seq<Seq<u8>>>)
    ensures
        targets_size_subs(s, tps) <= sum_dirs(s),
    decreases s, 0int,
{
    if s.len() > 0 {
        lemma_targets_size_le(s[0], step_paths(tps, s[0].name));
        lemma_targets_size_subs_le(s.drop_first(), tps);
    }
}

} // verus!

verus! {

/// The views of a list of relative paths.
pub open spec fn paths_v(s: Seq<crate::path::DirPath>) -> Seq<Seq<Seq<u8>>> {
    s.map_values(|p: crate::path::DirPath| p@)
}

fn find_sub_from<'a>(subs: &'a Vec<FsDir>, name: &Vec<u8>, i: usize) -> (r: Option<&'a FsDir>)
    requires
        i <= subs.len(),
    ensures
        (r matches Some(c) ==> find_sub(dirs_v(subs@).skip(i as int), name@) == Some(c@)),
        (r is None ==> find_sub(dirs_v(subs@).skip(i as int), name@) is None),
    decreases subs.len() - i,
{
    proof {
        lemma_dirs_v_index(subs@);
        if i < subs.len() {
            assert(dirs_v(subs@).skip(i as int)[0] == dir_v(subs@[i as int]));
            assert(dirs_v(subs@).skip(i as int).drop_first() =~= dirs_v(subs@).skip(i + 1));
        }
    }
    if i == subs.len() {
        None
    } else if crate::order::bytes_eq(&subs[i].name, name) {
        Some(&subs[i])
    } else {
        find_sub_from(subs, name, i + 1)
    }
}

/// The first subdirectory of `d` with the given name, if any.
pub fn find_subdir<'a>(d: &'a FsDir, name: &Vec<u8>) -> (r: Option<&'a FsDir>)
    ensures
        (r matches Some(c) ==> find_sub(d@.subdirs, name@) == Some(c@)),
        (r is None ==> find_sub(d@.subdirs, name@) is None),
{
    proof {
        assert(dirs_v(d.subdirs@).skip(0) =~= dirs_v(d.subdirs@));
    }
    find_sub_from(&d.subdirs, name, 0)
}

/// The directory reached by following `rel` from `d`, if it exists.
pub fn dir_at_exec<'a>(d: &'a FsDir, rel: &crate::path::DirPath) -> (r: Option<&'a FsDir>)
    ensures
        (r matches Some(c) ==> dir_at(d@, rel@) == Some(c@)),
        (r is None ==> dir_at(d@, rel@) is None),
{
    proof {
        assert(rel@.skip(0) =~= rel@);
    }
    dir_at_from(d, rel, 0)
}

fn dir_at_from<'a>(d: &'a FsDir, rel: &crate::path::DirPath, i: usize) -> (r: Option<&'a FsDir>)
    requires
        i <= rel@.len(),
    ensures
        (r matches Some(c) ==> dir_at(d@, rel@.skip(i as int)) == Some(c@)),
        (r is None ==> dir_at(d@, rel@.skip(i as int)) is None),
    decreases rel@.len() - i,
{
    proof {
        if i < rel@.len() {
            assert(rel@.skip(i as int)[0] == rel@[i as int]);
            assert(rel@.skip(i as int).drop_first() =~= rel@.skip(i + 1));
        }
    }
    if i == rel.segments.len() {
        Some(d)
    } else {
        match find_subdir(d, &rel.segments[i]) {
            Some(c) => dir_at_from(c, rel, i + 1),
            None => None,
        }
    }
}

/// Whether `d` has an entry (file or subdirectory) of this name.
pub fn has_entry_exec(d: &FsDir, name: &Vec<u8>) -> (r: bool)
    ensures
        r == has_entry(d@, name@),
{
    let mut i: usize = 0;
    while i < d.files.len()
        invariant
            0 <= i <= d.files.len(),
            forall|j: int| 0 <= j < i ==> d@.files[j].name != name@,
            d@.files.len() == d.files@.len(),
            forall|j: int| 0 <= j < d.files@.len() ==> d@.files[j] == file_v(d.files@[j]),
        decreases d.files.len() - i,
    {
        if crate::order::bytes_eq(&d.files[i].name, name) {
            assert(d@.files[i as int].name == name@);
            return true;
        }
        i = i + 1;
    }
    let mut k: usize = 0;
    proof {
        lemma_dirs_v_index(d.subdirs@);
    }
    while k < d.subdirs.len()
        invariant
            0 <= k <= d.subdirs.len(),
            forall|j: int| 0 <= j < k ==> d@.subdirs[j].name != name@,
            forall|j: int| 0 <= j < d@.files.len() ==> d@.files[j].name != name@,
            d@.subdirs.len() == d.subdirs@.len(),
            forall|j: int| 0 <= j < d.subdirs@.len() ==> d@.subdirs[j] == dir_v(d.subdirs@[j]),
        decreases d.subdirs.len() - k,
    {
        if crate::order::bytes_eq(&d.subdirs[k].name, name) {
            assert(d@.subdirs[k as int].name == name@);
            return true;
        }
        k = k + 1;
    }
    false
}

/// Total bytes of the regular files anywhere under `d`.
pub fn dir_size_exec(d: &FsDir) -> (r: u64)
    requires
        dv_size(d@) <= u64::MAX,
    ensures
        r == dv_size(d@),
    decreases *d,
{
    let mut total: u64 = 0;
    let mut i: usize = 0;
    proof {
        assert(d@.files =~= files_v(d.files@));
    }
    while i < d.files.len()
        invariant
            0 <= i <= d.files.len(),
            d@.files.len() == d.files@.len(),
            forall|j: int| 0 <= j < d.files@.len() ==> d@.files[j] == file_v(d.files@[j]),
            total == sum_files(d@.files.take(i as int)),
            sum_files(d@.files.take(i as int)) <= dv_size(d@) <= u64::MAX,
        decreases d.files.len() - i,
    {
        proof {
            assert(d@.files.take(i + 1) =~= d@.files.take(i as int) + seq![d@.files[i as int]]);
            lemma_sum_files_append(d@.files.take(i as int), seq![d@.files[i as int]]);
            assert(sum_files(seq![d@.files[i as int]]) == d@.files[i as int].size) by {
                assert(seq![d@.files[i as int]].drop_first() =~= Seq::<FileV>::empty());
                assert(sum_files(Seq::<FileV>::empty()) == 0);
            }
            assert(d@.files =~= d@.files.take(i + 1) + d@.files.skip(i + 1));
            lemma_sum_files_append(d@.files.take(i + 1), d@.files.skip(i + 1));
        }
        total = total + d.files[i].size;
        i = i + 1;
    }
    proof {
        assert(d@.files.take(d.files@.len() as int) =~= d@.files);
        lemma_dirs_v_index(d.subdirs@);
    }
    let mut k: usize = 0;
    while k < d.subdirs.len()
        invariant
            0 <= k <= d.subdirs.len(),
            d@.subdirs.len() == d.subdirs@.len(),
            forall|j: int| 0 <= j < d.subdirs@.len() ==> d@.subdirs[j] == dir_v(d.subdirs@[j]),
            dv_size(d@) <= u64::MAX,
            total == sum_files(d@.files) + sum_dirs(d@.subdirs.take(k as int)),
            sum_files(d@.files) + sum_dirs(d@.subdirs.take(k as int)) <= dv_size(d@),
        decreases d.subdirs.len() - k,
    {
        proof {
            assert(d@.subdirs.take(k + 1) =~= d@.subdirs.take(k as int) + seq![
                d@.subdirs[k as int],
            ]);
            lemma_sum_dirs_append(d@.subdirs.take(k as int), seq![d@.subdirs[k as int]]);
            assert(sum_dirs(seq![d@.subdirs[k as int]]) == dv_size(d@.subdirs[k as int])) by {
                assert(seq![d@.subdirs[k as int]].drop_first() =~= Seq::<DirV>::empty());
                assert(sum_dirs(Seq::<DirV>::empty()) == 0);
            }
            assert(d@.subdirs =~= d@.subdirs.take(k + 1) + d@.subdirs.skip(k + 1));
            lemma_sum_dirs_append(d@.subdirs.take(k + 1), d@.subdirs.skip(k + 1));
        }
        let sub_total = dir_size_exec(&d.subdirs[k]);
        total = total + sub_total;
        k = k + 1;
    }
    proof {
        assert(d@.subdirs.take(d.subdirs@.len() as int) =~= d@.subdirs);
    }
    total
}

} // verus!

verus! {

pub proof fn lemma_step_paths_append(a: Seq<Seq<Seq<u8>>>, b: Seq<Seq<Seq<u8>>>, name: Seq<u8>)
    ensures
        step_paths(a + b, name) == step_paths(a, name) + step_paths(b, name),
    decreases a,
{
    if a.len() == 0 {
        assert(a + b =~= b);
        assert(step_paths(a, name) + step_paths(b, name) =~= step_paths(b, name));
    } else {
        assert((a + b).drop_first() =~= a.drop_first() + b);
        lemma_step_paths_append(a.drop_first(), b, name);
        assert(step_paths(a + b, name) =~= step_paths(a, name) + step_paths(b, name));
    }
}

pub proof fn lemma_step_paths_singleton(p: Seq<Seq<u8>>, name: Seq<u8>)
    ensures
        p.len() > 0 && p[0] == name ==> step_paths(seq![p], name) == seq![p.drop_first()],
        !(p.len() > 0 && p[0] == name) ==> step_paths(seq![p], name) == Seq::<Seq<Seq<u8>>>::empty(),
{
    assert(seq![p].drop_first() =~= Seq::<Seq<Seq<u8>>>::empty());
    assert(step_paths(Seq::<Seq<Seq<u8>>>::empty(), name) == Seq::<Seq<Seq<u8>>>::empty());
    if p.len() > 0 && p[0] == name {
        assert(step_paths(seq![p], name) =~= seq![p.drop_first()]);
    }
}

pub proof fn lemma_targets_size_subs_append(a: Seq<DirV>, b: Seq<DirV>, tps: Seq<Seq<Seq<u8>>>)
    ensures
        targets_size_subs(a + b, tps) == targets_size_subs(a, tps) + targets_size_subs(b, tps),
    decreases a,
{
    if a.len() == 0 {
        assert(a + b =~= b);
    } else {
        assert((a + b).drop_first() =~= a.drop_first() + b);
        lemma_targets_size_subs_append(a.drop_first(), b, tps);
    }
}

fn contains_empty_exec(tps: &Vec<crate::path::DirPath>) -> (r: bool)
    ensures
        r == contains_empty(paths_v(tps@)),
{
    let mut i: usize = 0;
    while i < tps.len()
        invariant
            0 <= i <= tps.len(),
            paths_v(tps@).len() == tps@.len(),
            forall|j: int| 0 <= j < tps@.len() ==> paths_v(tps@)[j] == tps@[j]@,
            forall|j: int| 0 <= j < i ==> paths_v(tps@)[j].len() != 0,
        decreases tps.len() - i,
    {
        if tps[i].segments.len() == 0 {
            proof {
                assert(paths_v(tps@)[i as int].len() == 0);
            }
            return true;
        }
        i = i + 1;
    }
    false
}

fn step_paths_exec(tps: &Vec<crate::path::DirPath>, name: &Vec<u8>) -> (r: Vec<
    crate::path::DirPath,
>)
    ensures
        paths_v(r@) == step_paths(paths_v(tps@), name@),
{
    let mut out: Vec<crate::path::DirPath> = Vec::new();
    let mut i: usize = 0;
    proof {
        assert(paths_v(tps@).take(0) =~= Seq::<Seq<Seq<u8>>>::empty());
        assert(paths_v(out@) =~= Seq::<Seq<Seq<u8>>>::empty());
    }
    while i < tps.len()
        invariant
            0 <= i <= tps.len(),
            paths_v(tps@).len() == tps@.len(),
            forall|j: int| 0 <= j < tps@.len() ==> paths_v(tps@)[j] == tps@[j]@,
            paths_v(out@).len() == out@.len(),
            forall|j: int| 0 <= j < out@.len() ==> paths_v(out@)[j] == out@[j]@,
            paths_v(out@) =~= step_paths(paths_v(tps@).take(i as int), name@),
        decreases tps.len() - i,
    {
        let ghost pre = out@;
        proof {
            assert(paths_v(tps@).take(i + 1) =~= paths_v(tps@).take(i as int) + seq![
                paths_v(tps@)[i as int],
            ]);
            lemma_step_paths_append(
                paths_v(tps@).take(i as int),
                seq![paths_v(tps@)[i as int]],
                name@,
            );
            lemma_step_paths_singleton(paths_v(tps@)[i as int], name@);
        }
        if tps[i].segments.len() > 0 && crate::order::bytes_eq(&tps[i].segments[0], name) {
            let t = tps[i].tail();
            out.push(t);
            proof {
                assert(paths_v(tps@)[i as int][0] == name@);
                assert(paths_v(out@) =~= paths_v(pre).push(tps@[i as int]@.drop_first()));
                assert(paths_v(out@) =~= step_paths(paths_v(tps@).take(i + 1), name@));
            }
        } else {
            proof {
                if tps@[i as int]@.len() > 0 {
                    assert(tps@[i as int].segments@.len() > 0);
                    assert(tps@[i as int]@[0] == tps@[i as int].segments@[0]@);
                }
                assert(!(paths_v(tps@)[i as int].len() > 0 && paths_v(tps@)[i as int][0]
                    == name@));
                assert(paths_v(out@) =~= step_paths(paths_v(tps@).take(i + 1), name@));
            }
        }
        i = i + 1;
    }
    proof {
        assert(paths_v(tps@).take(tps@.len() as int) =~= paths_v(tps@));
    }
    out
}

/// Total bytes of the regular files lying strictly under one of the given
/// target paths below `d`.
pub fn targets_size_exec(d: &FsDir, tps: &Vec<crate::path::DirPath>) -> (r: u64)
    requires
        dv_size(d@) <= u64::MAX,
    ensures
        r == targets_size(d@, paths_v(tps@)),
    decreases *d,
{
    if contains_empty_exec(tps) {
        return dir_size_exec(d);
    }
    proof {
        lemma_dirs_v_index(d.subdirs@);
    }
    let mut total: u64 = 0;
    let mut k: usize = 0;
    while k < d.subdirs.len()
        invariant
            0 <= k <= d.subdirs.len(),
            d@.subdirs.len() == d.subdirs@.len(),
            forall|j: int| 0 <= j < d.subdirs@.len() ==> d@.subdirs[j] == dir_v(d.subdirs@[j]),
            dv_size(d@) <= u64::MAX,
            total == targets_size_subs(d@.subdirs.take(k as int), paths_v(tps@)),
            targets_size_subs(d@.subdirs.take(k as int), paths_v(tps@)) <= sum_dirs(
                d@.subdirs.take(k as int),
            ),
        decreases d.subdirs.len() - k,
    {
        proof {
            assert(d@.subdirs.take(k + 1) =~= d@.subdirs.take(k as int) + seq![
                d@.subdirs[k as int],
            ]);
            lemma_targets_size_subs_append(
                d@.subdirs.take(k as int),
                seq![d@.subdirs[k as int]],
                paths_v(tps@),
            );
            lemma_sum_dirs_append(d@.subdirs.take(k as int), seq![d@.subdirs[k as int]]);
            assert(targets_size_subs(seq![d@.subdirs[k as int]], paths_v(tps@)) == targets_size(
                d@.subdirs[k as int],
                step_paths(paths_v(tps@), d@.subdirs[k as int].name),
            )) by {
                assert(seq![d@.subdirs[k as int]].drop_first() =~= Seq::<DirV>::empty());
                assert(targets_size_subs(Seq::<DirV>::empty(), paths_v(tps@)) == 0);
            }
            assert(sum_dirs(seq![d@.subdirs[k as int]]) == dv_size(d@.subdirs[k as int])) by {
                assert(seq![d@.subdirs[k as int]].drop_first() =~= Seq::<DirV>::empty());
                assert(sum_dirs(Seq::<DirV>::empty()) == 0);
            }
            lemma_targets_size_le(
                d@.subdirs[k as int],
                step_paths(paths_v(tps@), d@.subdirs[k as int].name),
            );
            assert(dv_size(d@.subdirs[k as int]) <= dv_size(d@)) by {
                lemma_sum_dirs_bounds_element(d@.subdirs, k as int);
            }
            assert(sum_dirs(d@.subdirs.take(k + 1)) <= sum_dirs(d@.subdirs)) by {
                assert(d@.subdirs =~= d@.subdirs.take(k + 1) + d@.subdirs.skip(k + 1));
                lemma_sum_dirs_append(d@.subdirs.take(k + 1), d@.subdirs.skip(k + 1));
            }
        }
        let stepped = step_paths_exec(tps, &d.subdirs[k].name);
        let sub = targets_size_exec(&d.subdirs[k], &stepped);
        total = total + sub;
        k = k + 1;
    }
    proof {
        assert(d@.subdirs.take(d.subdirs@.len() as int) =~= d@.subdirs);
    }
    total
}

} // verus!

verus! {

/// No two subdirectories of one directory share a name.
pub open spec fn distinct_names(s: Seq<DirV>) -> bool {
    forall|i: int, j: int| 0 <= i < j < s.len() ==> s[i].name != s[j].name
}

pub open spec fn wf_dirs(s: Seq<DirV>) -> bool
    decreases s,
{
    if s.len() == 0 {
        true
    } else {
        wf_dir(s[0]) && wf_dirs(s.drop_first())
    }
}

/// A well-formed snapshot: on every level, subdirectory names are
/// distinct, as they are on a real filesystem.
pub open spec fn wf_dir(v: DirV) -> bool
    decreases v,
{
    distinct_names(v.subdirs) && wf_dirs(v.subdirs)
}

pub proof fn lemma_wf_dirs_index(s: Seq<DirV>)
    requires
        wf_dirs(s),
    ensures
        forall|i: int| 0 <= i < s.len() ==> wf_dir(#[trigger] s[i]),
    decreases s,
{
    if s.len() > 0 {
        lemma_wf_dirs_index(s.drop_first());
        assert(forall|i: int| 1 <= i < s.len() ==> s[i] == s.drop_first()[i - 1]);
    }
}

/// With distinct names, the lookup returns exactly the subdirectory that
/// carries the name.
pub proof fn lemma_find_sub_distinct(s: Seq<DirV>, i: int)
    requires
        distinct_names(s),
        0 <= i < s.len(),
    ensures
        find_sub(s, s[i].name) == Some(s[i]),
    decreases s,
{
    if i > 0 {
        assert(s[0].name != s[i].name);
        assert(distinct_names(s.drop_first())) by {
            assert(forall|m: int|
                0 <= m < s.drop_first().len() ==> s.drop_first()[m] == s[m + 1]);
        }
        lemma_find_sub_distinct(s.drop_first(), i - 1);
        assert(s.drop_first()[i - 1] == s[i]);
    }
}

} // verus!

verus! {

/// The snapshot with one more regular file in the directory at `rel`.
pub open spec fn add_file(v: DirV, rel: Seq<Seq<u8>>, f: FileV) -> DirV
    decreases rel.len(), 1int, v.subdirs,
{
    if rel.len() == 0 {
        DirV { name: v.name, files: v.files.push(f), subdirs: v.subdirs }
    } else {
        DirV { name: v.name, files: v.files, subdirs: add_file_in_subs(v.subdirs, rel, f) }
    }
}

pub open spec fn add_file_in_subs(s: Seq<DirV>, rel: Seq<Seq<u8>>, f: FileV) -> Seq<DirV>
    decreases rel.len(), 0int, s,
{
    if rel.len() == 0 || s.len() == 0 {
        s
    } else if s[0].name == rel[0] {
        seq![add_file(s[0], rel.drop_first(), f)] + s.drop_first()
    } else {
        seq![s[0]] + add_file_in_subs(s.drop_first(), rel, f)
    }
}

/// A file placed outside every target directory leaves the bytes under
/// the targets unchanged.
pub proof fn lemma_file_outside_targets(
    v: DirV,
    rel: Seq<Seq<u8>>,
    f: FileV,
    tps: Seq<Seq<Seq<u8>>>,
)
    requires
        forall|i: int| 0 <= i < tps.len() ==> !crate::path::is_prefix_of(#[trigger] tps[i], rel),
    ensures
        targets_size(add_file(v, rel, f), tps) == targets_size(v, tps),
    decreases rel.len(), 1int, v.subdirs,
{
    if contains_empty(tps) {
        let i = choose|i: int| 0 <= i < tps.len() && tps[i].len() == 0;
        assert(crate::path::is_prefix_of(tps[i], rel)) by {
            assert(rel.subrange(0, 0) =~= tps[i]);
        }
        assert(false);
    } else if rel.len() == 0 {
        assert(add_file(v, rel, f).subdirs == v.subdirs);
    } else {
        lemma_file_outside_in_subs(v.subdirs, rel, f, tps);
    }
}

pub proof fn lemma_file_outside_in_subs(
    s: Seq<DirV>,
    rel: Seq<Seq<u8>>,
    f: FileV,
    tps: Seq<Seq<Seq<u8>>>,
)
    requires
        rel.len() > 0,
        forall|i: int| 0 <= i < tps.len() ==> !crate::path::is_prefix_of(#[trigger] tps[i], rel),
    ensures
        targets_size_subs(add_file_in_subs(s, rel, f), tps) == targets_size_subs(s, tps),
    decreases rel.len(), 0int, s,
{
    if s.len() == 0 {
    } else if s[0].name == rel[0] {
        let child2 = add_file(s[0], rel.drop_first(), f);
        let stepped = step_paths(tps, s[0].name);
        assert forall|i: int| 0 <= i < stepped.len() implies !crate::path::is_prefix_of(
            #[trigger] stepped[i],
            rel.drop_first(),
        ) by {
            lemma_step_paths_source(tps, s[0].name, i);
            let m = choose|m: int|
                0 <= m < tps.len() && tps[m].len() > 0 && tps[m][0] == s[0].name && stepped[i]
                    == tps[m].drop_first();
            if crate::path::is_prefix_of(stepped[i], rel.drop_first()) {
                assert(crate::path::is_prefix_of(tps[m], rel)) by {
                    assert(rel.subrange(0, tps[m].len() as int) =~= tps[m]) by {
                        assert(forall|x: int|
                            1 <= x < tps[m].len() ==> rel.drop_first().subrange(
                                0,
                                stepped[i].len() as int,
                            )[x - 1] == rel[x] && tps[m].drop_first()[x - 1] == tps[m][x]);
                    }
                }
                assert(false);
            }
        }
        lemma_file_outside_targets(s[0], rel.drop_first(), f, stepped);
        assert(child2.name == s[0].name);
        assert(add_file_in_subs(s, rel, f) == seq![child2] + s.drop_first());
        assert((seq![child2] + s.drop_first()).drop_first() =~= s.drop_first());
        assert(targets_size_subs(seq![child2] + s.drop_first(), tps) == targets_size(
            child2,
            step_paths(tps, child2.name),
        ) + targets_size_subs(s.drop_first(), tps));
    } else {
        lemma_file_outside_in_subs(s.drop_first(), rel, f, tps);
        assert(add_file_in_subs(s, rel, f) == seq![s[0]] + add_file_in_subs(
            s.drop_first(),
            rel,
            f,
        ));
        assert((seq![s[0]] + add_file_in_subs(s.drop_first(), rel, f)).drop_first()
            =~= add_file_in_subs(s.drop_first(), rel, f));
        assert((seq![s[0]] + add_file_in_subs(s.drop_first(), rel, f))[0] == s[0]);
    }
}

/// Which source path a stepped path comes from.
pub proof fn lemma_step_paths_source(tps: Seq<Seq<Seq<u8>>>, name: Seq<u8>, i: int)
    requires
        0 <= i < step_paths(tps, name).len(),
    ensures
        exists|m: int|
            0 <= m < tps.len() && #[trigger] tps[m].len() > 0 && tps[m][0] == name && step_paths(
                tps,
                name,
            )[i] == tps[m].drop_first(),
    decreases tps,
{
    if tps.len() > 0 {
        let rest = step_paths(tps.drop_first(), name);
        if tps[0].len() > 0 && tps[0][0] == name {
            if i == 0 {
                assert(tps[0].len() > 0 && tps[0][0] == name && step_paths(tps, name)[0]
                    == tps[0].drop_first());
            } else {
                lemma_step_paths_source(tps.drop_first(), name, i - 1);
                let m = choose|m: int|
                    0 <= m < tps.drop_first().len() && #[trigger] tps.drop_first()[m].len() > 0
                        && tps.drop_first()[m][0] == name && step_paths(tps.drop_first(), name)[i
                        - 1] == tps.drop_first()[m].drop_first();
                assert(tps[m + 1].len() > 0 && tps[m + 1][0] == name && step_paths(tps, name)[i]
                    == tps[m + 1].drop_first());
            }
        } else {
            lemma_step_paths_source(tps.drop_first(), name, i);
            let m = choose|m: int|
                0 <= m < tps.drop_first().len() && #[trigger] tps.drop_first()[m].len() > 0
                    && tps.drop_first()[m][0] == name && step_paths(tps.drop_first(), name)[i]
                    == tps.drop_first()[m].drop_first();
            assert(tps[m + 1].len() > 0 && tps[m + 1][0] == name && step_paths(tps, name)[i]
                == tps[m + 1].drop_first());
        }
    }
}

} // verus!

verus! {

pub proof fn lemma_targets_size_empty(v: DirV)
    ensures
        targets_size(v, Seq::empty()) == 0,
    decreases v, 1int,
{
    lemma_targets_size_subs_empty(v.subdirs);
}

pub proof fn lemma_targets_size_subs_empty(s: Seq<DirV>)
    ensures
        targets_size_subs(s, Seq::empty()) == 0,
    decreases s, 0int,
{
    if s.len() > 0 {
        assert(step_paths(Seq::empty(), s[0].name) =~= Seq::<Seq<Seq<u8>>>::empty());
        lemma_targets_size_empty(s[0]);
        lemma_targets_size_subs_empty(s.drop_first());
    }
}

/// On a well-formed snapshot, the bytes under a single target path are
/// exactly the bytes of the directory the path leads to: the filtered
/// walk and the direct lookup agree.
pub proof fn lemma_targets_size_single(v: DirV, t: Seq<Seq<u8>>)
    requires
        wf_dir(v),
    ensures
        targets_size(v, seq![t]) == (match dir_at(v, t) {
            Some(c) => dv_size(c),
            None => 0,
        }),
    decreases v, 1int,
{
    if t.len() == 0 {
        assert(seq![t][0].len() == 0);
        assert(contains_empty(seq![t]));
    } else {
        assert(!contains_empty(seq![t])) by {
            assert(forall|i: int| 0 <= i < seq![t].len() ==> seq![t][i] =~= t);
        }
        lemma_targets_size_single_subs(v.subdirs, t);
    }
}

pub proof fn lemma_targets_size_single_subs(s: Seq<DirV>, t: Seq<Seq<u8>>)
    requires
        t.len() > 0,
        distinct_names(s),
        wf_dirs(s),
    ensures
        targets_size_subs(s, seq![t]) == (match find_sub(s, t[0]) {
            Some(c) => (match dir_at(c, t.drop_first()) {
                Some(d) => dv_size(d),
                None => 0,
            }),
            None => 0,
        }),
    decreases s, 0int,
{
    if s.len() > 0 {
        lemma_step_paths_singleton(t, s[0].name);
        if s[0].name == t[0] {
            // The first child carries the name: it contributes its own
            // lookup, and no later child shares the name.
            lemma_targets_size_single(s[0], t.drop_first());
            assert(distinct_names(s.drop_first()) && wf_dirs(s.drop_first())) by {
                assert(forall|m: int|
                    0 <= m < s.drop_first().len() ==> s.drop_first()[m] == s[m + 1]);
            }
            assert(forall|m: int|
                0 <= m < s.drop_first().len() ==> (#[trigger] s.drop_first()[m]).name != t[0]);
            lemma_targets_size_subs_no_match(s.drop_first(), t);
        } else {
            lemma_targets_size_empty(s[0]);
            assert(distinct_names(s.drop_first()) && wf_dirs(s.drop_first())) by {
                assert(forall|m: int|
                    0 <= m < s.drop_first().len() ==> s.drop_first()[m] == s[m + 1]);
            }
            lemma_targets_size_single_subs(s.drop_first(), t);
        }
    }
}

pub proof fn lemma_targets_size_subs_no_match(s: Seq<DirV>, t: Seq<Seq<u8>>)
    requires
        t.len() > 0,
        forall|m: int| 0 <= m < s.len() ==> (#[trigger] s[m]).name != t[0],
    ensures
        targets_size_subs(s, seq![t]) == 0,
    decreases s, 0int,
{
    if s.len() > 0 {
        lemma_step_paths_singleton(t, s[0].name);
        lemma_targets_size_empty(s[0]);
        assert(forall|m: int|
            0 <= m < s.drop_first().len() ==> s.drop_first()[m] == s[m + 1]);
        lemma_targets_size_subs_no_match(s.drop_first(), t);
    }
}

} // verus!

verus! {

/// Sum of the per-target lookups: each target path contributes the
/// bytes of the directory it leads to.
pub open spec fn sum_target_sizes(v: DirV, tps: Seq<Seq<Seq<u8>>>) -> nat
    decreases tps,
{
    if tps.len() == 0 {
        0
    } else {
        (match dir_at(v, tps[0]) {
            Some(c) => dv_size(c),
            None => 0,
        }) + sum_target_sizes(v, tps.drop_first())
    }
}

/// Target paths that never share a first component.
pub open spec fn heads_distinct(tps: Seq<Seq<Seq<u8>>>) -> bool {
    &&& forall|i: int| 0 <= i < tps.len() ==> (#[trigger] tps[i]).len() > 0
    &&& forall|i: int, j: int| 0 <= i < j < tps.len() ==> tps[i][0] != tps[j][0]
}

/// Splitting off the first target: where no other target starts with
/// the same component, the filtered walk distributes over the split.
pub proof fn lemma_targets_size_split(v: DirV, t: Seq<Seq<u8>>, rest: Seq<Seq<Seq<u8>>>)
    requires
        t.len() > 0,
        forall|i: int| 0 <= i < rest.len() ==> (#[trigger] rest[i]).len() > 0,
        forall|i: int| 0 <= i < rest.len() ==> (#[trigger] rest[i])[0] != t[0],
    ensures
        targets_size(v, seq![t] + rest) == targets_size(v, seq![t]) + targets_size(v, rest),
    decreases v, 1int,
{
    assert(!contains_empty(seq![t] + rest)) by {
        assert(forall|i: int| 0 <= i < 1 + rest.len() ==> (seq![t] + rest)[i].len() > 0) by {
            assert(forall|i: int| 1 <= i < 1 + rest.len() ==> (seq![t] + rest)[i] == rest[i - 1]);
            assert((seq![t] + rest)[0] == t);
        }
    }
    assert(!contains_empty(seq![t])) by {
        assert(seq![t][0] == t);
    }
    assert(!contains_empty(rest));
    lemma_targets_size_split_subs(v.subdirs, t, rest);
}

pub proof fn lemma_targets_size_split_subs(s: Seq<DirV>, t: Seq<Seq<u8>>, rest: Seq<Seq<Seq<u8>>>)
    requires
        t.len() > 0,
        forall|i: int| 0 <= i < rest.len() ==> (#[trigger] rest[i]).len() > 0,
        forall|i: int| 0 <= i < rest.len() ==> (#[trigger] rest[i])[0] != t[0],
    ensures
        targets_size_subs(s, seq![t] + rest) == targets_size_subs(s, seq![t])
            + targets_size_subs(s, rest),
    decreases s, 0int,
{
    if s.len() > 0 {
        let name = s[0].name;
        lemma_step_paths_append(seq![t], rest, name);
        lemma_step_paths_singleton(t, name);
        if name == t[0] {
            // Only `t` continues into this child.
            assert(step_paths(rest, name) =~= Seq::<Seq<Seq<u8>>>::empty()) by {
                lemma_step_paths_no_head(rest, name);
            }
            assert(step_paths(seq![t] + rest, name) =~= seq![t.drop_first()]);
            assert(step_paths(seq![t], name) =~= seq![t.drop_first()]);
            lemma_targets_size_empty(s[0]);
        } else {
            // Only the remaining targets may continue into this child.
            assert(step_paths(seq![t], name) =~= Seq::<Seq<Seq<u8>>>::empty());
            assert(step_paths(seq![t] + rest, name) =~= step_paths(rest, name));
            lemma_targets_size_empty(s[0]);
        }
        lemma_targets_size_split_subs(s.drop_first(), t, rest);
    }
}

/// No stepped path survives where no source path starts with the name.
pub proof fn lemma_step_paths_no_head(tps: Seq<Seq<Seq<u8>>>, name: Seq<u8>)
    requires
        forall|i: int| 0 <= i < tps.len() ==> (#[trigger] tps[i]).len() > 0,
        forall|i: int| 0 <= i < tps.len() ==> (#[trigger] tps[i])[0] != name,
    ensures
        step_paths(tps, name) == Seq::<Seq<Seq<u8>>>::empty(),
    decreases tps,
{
    if tps.len() > 0 {
        assert(forall|i: int| 0 <= i < tps.drop_first().len() ==> tps.drop_first()[i] == tps[i
            + 1]);
        lemma_step_paths_no_head(tps.drop_first(), name);
    }
}

/// On a well-formed snapshot, where the target paths never share a
/// first component, the bytes under the targets are exactly the sum of
/// the per-target lookups: no byte is counted twice.
pub proof fn lemma_targets_size_additive(v: DirV, tps: Seq<Seq<Seq<u8>>>)
    requires
        wf_dir(v),
        heads_distinct(tps),
    ensures
        targets_size(v, tps) == sum_target_sizes(v, tps),
    decreases tps,
{
    if tps.len() == 0 {
        assert(tps =~= Seq::<Seq<Seq<u8>>>::empty());
        lemma_targets_size_empty(v);
    } else {
        let t = tps[0];
        let rest = tps.drop_first();
        assert(tps =~= seq![t] + rest);
        assert(forall|i: int| 0 <= i < rest.len() ==> rest[i] == tps[i + 1]);
        lemma_targets_size_split(v, t, rest);
        lemma_targets_size_single(v, t);
        assert(heads_distinct(rest)) by {
            assert(forall|i: int| 0 <= i < rest.len() ==> rest[i] == tps[i + 1]);
        }
        lemma_targets_size_additive(v, rest);
    }
}

} // verus!
