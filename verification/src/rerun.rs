//! Running twice: the files that one run has renamed are left alone by the
//! next.

use vstd::prelude::*;
use crate::group::{
    ImgGroup, is_ordered, distinct_base_paths, drawn_from, covers, in_order, lemma_first_with_fits,
};
use crate::media::ImgInfo;
use crate::names::{ImgRole, sidecar_name_of};
use crate::rename::{
    new_name, name_front, default_width, plan_steps, renames_nothing, is_settled, is_settled_group,
    lemma_settled_files_keep_their_names, lemma_renamed_member_is_settled, lemma_new_name_keeps_extension,
    lemma_default_width_fits,
};
use crate::text::{
    joined, lex_le, pow10, zero_padded, lemma_zero_padded_is_fixed, lemma_fixed_digits_order,
    lemma_lex_le_by_front, lemma_lex_le_behind_front, lemma_lex_le_total,
};
use crate::timestamp::{formatted_time, name_time_format};

verus! {

/// Whether `img` is a member of `group`.
pub open spec fn is_member(group: ImgGroup, img: ImgInfo) -> bool {
    group.raw == Some(img) || group.jpg == Some(img)
}

/// The capture time of `img` as file names carry it.
pub open spec fn stamp_of(img: ImgInfo) -> Seq<char> {
    formatted_time(img.date, name_time_format()).unwrap()
}

/// Whether `group` is a group of the directory `dir` whose members can be
/// renamed and agree with each other: each lies in `dir`, has a capture
/// time that can be written, which is the group's, has the group's camera
/// model, and has its sidecar, if any, under the sidecar's proper name.
pub open spec fn is_regular(group: ImgGroup, dir: Seq<char>) -> bool {
    &&& group.wf()
    &&& forall|img: ImgInfo| #[trigger]
        is_member(group, img) ==> {
            &&& img.dir@ == dir
            &&& formatted_time(img.date, name_time_format()).is_some()
            &&& img.date == group.spec_date()
            &&& img.model@ == group.spec_first_img().model@
            &&& img.sidecar_name.is_some() ==> img.sidecar_name.unwrap()@ == sidecar_name_of(img.file_name@)
        }
}

/// Whether `after` is the file `before` as a run leaves it that counts it
/// as `index`: renamed, its sidecar renamed with it, and else the same.
pub open spec fn is_renamed(before: ImgInfo, after: ImgInfo, index: nat, prefix: Seq<char>, width: nat) -> bool {
    &&& after.dir@ == before.dir@
    &&& after.date == before.date
    &&& after.model@ == before.model@
    &&& after.file_name@ == new_name(before.file_name@, index, before, stamp_of(before), prefix, width)
    &&& after.sidecar_name.is_some() == before.sidecar_name.is_some()
    &&& before.sidecar_name.is_some() ==> after.sidecar_name.unwrap()@ == new_name(
        before.sidecar_name.unwrap()@,
        index,
        before,
        stamp_of(before),
        prefix,
        width,
    )
}

/// Whether `file` is a renamed member of the group at position `k` of
/// `first`.
pub open spec fn comes_from(first: Seq<ImgGroup>, file: ImgInfo, k: int, prefix: Seq<char>, width: nat) -> bool {
    0 <= k < first.len() && exists|img: ImgInfo| #[trigger]
        is_member(first[k], img) && is_renamed(img, file, (k + 1) as nat, prefix, width)
}

/// The base path that the members of `group` have once they are renamed
/// at position `k`.
pub open spec fn new_base(group: ImgGroup, k: int, dir: Seq<char>, prefix: Seq<char>, width: nat) -> Seq<char> {
    joined(
        dir,
        name_front((k + 1) as nat, width, stamp_of(group.spec_first_img()), prefix, group.spec_first_img().model@),
    )
}

/// Whether `files` is what a scan finds after a run over `first`: among
/// the files with a role, the renamed members of `first` and no others.
pub open spec fn is_scan_after(first: Seq<ImgGroup>, files: Seq<ImgInfo>, prefix: Seq<char>, width: nat) -> bool {
    &&& forall|k: int, img: ImgInfo|
        0 <= k < first.len() && #[trigger] is_member(first[k], img) ==> exists|i: int|
            0 <= i < files.len() && #[trigger] is_renamed(img, files[i], (k + 1) as nat, prefix, width)
    &&& forall|i: int|
        0 <= i < files.len() && (#[trigger] files[i]).spec_role().is_some() ==> exists|k: int| #[trigger]
            comes_from(first, files[i], k, prefix, width)
}

/// New names that differ in the counter are ordered by the counter, where
/// the width takes both counters.
pub proof fn lemma_new_names_in_counter_order(
    dir: Seq<char>,
    i: nat,
    j: nat,
    width: nat,
    stamp_i: Seq<char>,
    stamp_j: Seq<char>,
    prefix: Seq<char>,
    model_i: Seq<char>,
    model_j: Seq<char>,
)
    requires
        i < j < pow10(width),
        width >= 1,
    ensures
        !lex_le(
            joined(dir, name_front(j, width, stamp_j, prefix, model_j)),
            joined(dir, name_front(i, width, stamp_i, prefix, model_i)),
        ),
        joined(dir, name_front(j, width, stamp_j, prefix, model_j)) != joined(
            dir,
            name_front(i, width, stamp_i, prefix, model_i),
        ),
{
    let pi = zero_padded(i, width);
    let pj = zero_padded(j, width);
    lemma_zero_padded_is_fixed(i, width);
    lemma_zero_padded_is_fixed(j, width);
    lemma_fixed_digits_order(i, j, width);
    let fi = name_front(i, width, stamp_i, prefix, model_i);
    let fj = name_front(j, width, stamp_j, prefix, model_j);
    let ri = fi.subrange(width as int, fi.len() as int);
    let rj = fj.subrange(width as int, fj.len() as int);
    assert(fi =~= pi + ri);
    assert(fj =~= pj + rj);
    lemma_lex_le_by_front(pj, pi, rj, ri);
    assert(!lex_le(fj, fi));
    let front = if dir.len() == 0 || dir.last() == '/' {
        dir
    } else {
        dir + seq!['/']
    };
    assert(joined(dir, fi) =~= front + fi);
    assert(joined(dir, fj) =~= front + fj);
    lemma_lex_le_behind_front(front, fj, fi);
    lemma_lex_le_total(joined(dir, fi), joined(dir, fi));
}

/// A renamed member has the new base path of its group, its group's
/// capture time and its old role, and is settled at its group's position.
pub proof fn lemma_renamed_member(
    group: ImgGroup,
    k: int,
    img: ImgInfo,
    file: ImgInfo,
    dir: Seq<char>,
    prefix: Seq<char>,
    width: nat,
)
    requires
        k >= 0,
        is_regular(group, dir),
        is_member(group, img),
        is_renamed(img, file, (k + 1) as nat, prefix, width),
    ensures
        file.spec_base_path() == new_base(group, k, dir, prefix, width),
        file.date == group.spec_date(),
        file.spec_role().is_some(),
        is_settled(file, (k + 1) as nat, prefix, width),
{
    let first = group.spec_first_img();
    assert(is_member(group, first));
    assert(img.spec_role().is_some());
    assert(stamp_of(img) == stamp_of(first));
    lemma_new_name_keeps_extension(img.file_name@, (k + 1) as nat, img, stamp_of(img), prefix, width);
    lemma_renamed_member_is_settled(img, file, (k + 1) as nat, prefix, width);
}

/// Whether `second` is what grouping gives after a run over `first` with
/// the counter `width` wide: the groups of `first` are regular groups of
/// `dir` in order, `files` is the scan after the run, and `second` is the
/// grouping of `files`.
pub open spec fn is_regrouping(
    first: Seq<ImgGroup>,
    files: Seq<ImgInfo>,
    second: Seq<ImgGroup>,
    dir: Seq<char>,
    prefix: Seq<char>,
    width: nat,
) -> bool {
    &&& is_ordered(first)
    &&& forall|k: int| 0 <= k < first.len() ==> is_regular(#[trigger] first[k], dir)
    &&& is_scan_after(first, files, prefix, width)
    &&& drawn_from(second, files)
    &&& covers(second, files)
    &&& distinct_base_paths(second)
    &&& is_ordered(second)
}

/// Whether `second` is what grouping gives after a run over `first` whose
/// counter was wide enough for the number of groups.
pub open spec fn is_second_run(
    first: Seq<ImgGroup>,
    files: Seq<ImgInfo>,
    second: Seq<ImgGroup>,
    dir: Seq<char>,
    prefix: Seq<char>,
    width: nat,
) -> bool {
    is_regrouping(first, files, second, dir, prefix, width) && first.len() < pow10(width)
}

/// Whether the group `later` of a second run is the group at position `k`
/// of `first`, renamed: it has that group's new base path and its time.
pub open spec fn origin_of(
    first: Seq<ImgGroup>,
    later: ImgGroup,
    k: int,
    dir: Seq<char>,
    prefix: Seq<char>,
    width: nat,
) -> bool {
    &&& 0 <= k < first.len()
    &&& later.spec_base_path() == new_base(first[k], k, dir, prefix, width)
    &&& later.spec_date() == first[k].spec_date()
}

/// Groups at different positions get different new base paths, the later
/// position the later one.
pub proof fn lemma_new_bases_differ(
    first: Seq<ImgGroup>,
    a: int,
    b: int,
    dir: Seq<char>,
    prefix: Seq<char>,
    width: nat,
)
    requires
        0 <= a < b < first.len(),
        first.len() < pow10(width),
    ensures
        new_base(first[a], a, dir, prefix, width) != new_base(first[b], b, dir, prefix, width),
        !lex_le(new_base(first[b], b, dir, prefix, width), new_base(first[a], a, dir, prefix, width)),
{
    assert(width >= 1) by {
        if width == 0 {
            assert(pow10(0) == 1);
        }
    }
    lemma_new_names_in_counter_order(
        dir,
        (a + 1) as nat,
        (b + 1) as nat,
        width,
        stamp_of(first[a].spec_first_img()),
        stamp_of(first[b].spec_first_img()),
        prefix,
        first[a].spec_first_img().model@,
        first[b].spec_first_img().model@,
    );
}

/// A file with a role that the second scan found is a renamed member of
/// a group of the first run, and has that group's new base path and time.
proof fn lemma_file_origin(
    first: Seq<ImgGroup>,
    files: Seq<ImgInfo>,
    second: Seq<ImgGroup>,
    dir: Seq<char>,
    prefix: Seq<char>,
    width: nat,
    file: ImgInfo,
) -> (k: int)
    requires
        is_second_run(first, files, second, dir, prefix, width),
        files.contains(file),
        file.spec_role().is_some(),
    ensures
        comes_from(first, file, k, prefix, width),
        file.spec_base_path() == new_base(first[k], k, dir, prefix, width),
        file.date == first[k].spec_date(),
        is_settled(file, (k + 1) as nat, prefix, width),
{
    let i = choose|i: int| 0 <= i < files.len() && files[i] == file;
    assert(files[i].spec_role().is_some());
    let k = choose|k: int| #[trigger] comes_from(first, files[i], k, prefix, width);
    let img = choose|img: ImgInfo| #[trigger]
        is_member(first[k], img) && is_renamed(img, file, (k + 1) as nat, prefix, width);
    assert(is_regular(first[k], dir));
    lemma_renamed_member(first[k], k, img, file, dir, prefix, width);
    k
}

/// Every group of the second run is a group of the first run, renamed:
/// all its members are renamed members of that one group.
proof fn lemma_group_origin(
    first: Seq<ImgGroup>,
    files: Seq<ImgInfo>,
    second: Seq<ImgGroup>,
    dir: Seq<char>,
    prefix: Seq<char>,
    width: nat,
    k2: int,
) -> (k: int)
    requires
        is_second_run(first, files, second, dir, prefix, width),
        0 <= k2 < second.len(),
    ensures
        origin_of(first, second[k2], k, dir, prefix, width),
        forall|f: ImgInfo| #[trigger]
            is_member(second[k2], f) ==> comes_from(first, f, k, prefix, width) && is_settled(
                f,
                (k + 1) as nat,
                prefix,
                width,
            ),
{
    let g = second[k2];
    let base = g.spec_base_path();
    assert(g.wf());
    lemma_first_with_fits(files, base, ImgRole::Raw);
    lemma_first_with_fits(files, base, ImgRole::CameraJPG);
    let lead = g.spec_first_img();
    assert(files.contains(lead));
    let k = lemma_file_origin(first, files, second, dir, prefix, width, lead);
    assert forall|f: ImgInfo| #[trigger] is_member(g, f) implies comes_from(first, f, k, prefix, width)
        && is_settled(f, (k + 1) as nat, prefix, width) by {
        assert(files.contains(f));
        assert(f.spec_role().is_some());
        assert(f.spec_base_path() == base);
        let other = lemma_file_origin(first, files, second, dir, prefix, width, f);
        if other < k {
            lemma_new_bases_differ(first, other, k, dir, prefix, width);
        } else if k < other {
            lemma_new_bases_differ(first, k, other, dir, prefix, width);
        }
    }
    k
}

/// The groups of the second run stand in the order of the groups they
/// come from.
proof fn lemma_origins_in_order(
    first: Seq<ImgGroup>,
    files: Seq<ImgInfo>,
    second: Seq<ImgGroup>,
    dir: Seq<char>,
    prefix: Seq<char>,
    width: nat,
    k2: int,
    l2: int,
    a: int,
    b: int,
)
    requires
        is_second_run(first, files, second, dir, prefix, width),
        0 <= k2 < l2 < second.len(),
        origin_of(first, second[k2], a, dir, prefix, width),
        origin_of(first, second[l2], b, dir, prefix, width),
    ensures
        a < b,
{
    assert(second[k2].spec_base_path() != second[l2].spec_base_path());
    assert(in_order(second[k2], second[l2]));
    if b < a {
        assert(in_order(first[b], first[a]));
        lemma_new_bases_differ(first, b, a, dir, prefix, width);
    }
}

/// Every group of the first run is found again in the second.
proof fn lemma_origins_are_onto(
    first: Seq<ImgGroup>,
    files: Seq<ImgInfo>,
    second: Seq<ImgGroup>,
    dir: Seq<char>,
    prefix: Seq<char>,
    width: nat,
    k: int,
) -> (k2: int)
    requires
        is_second_run(first, files, second, dir, prefix, width),
        0 <= k < first.len(),
    ensures
        0 <= k2 < second.len(),
        origin_of(first, second[k2], k, dir, prefix, width),
{
    let g = first[k];
    assert(is_regular(g, dir));
    let img = g.spec_first_img();
    assert(is_member(g, img));
    let i = choose|i: int| 0 <= i < files.len() && #[trigger] is_renamed(img, files[i], (k + 1) as nat, prefix, width);
    lemma_renamed_member(g, k, img, files[i], dir, prefix, width);
    assert(files[i].spec_role().is_some());
    let k2 = choose|k2: int|
        0 <= k2 < second.len() && (#[trigger] second[k2]).spec_base_path() == files[i].spec_base_path();
    let other = lemma_group_origin(first, files, second, dir, prefix, width, k2);
    if other < k {
        lemma_new_bases_differ(first, other, k, dir, prefix, width);
    } else if k < other {
        lemma_new_bases_differ(first, k, other, dir, prefix, width);
    }
    k2
}

/// Every group of the second run stands where the group it comes from
/// stood in the first.
proof fn lemma_origin_is_position(
    first: Seq<ImgGroup>,
    files: Seq<ImgInfo>,
    second: Seq<ImgGroup>,
    dir: Seq<char>,
    prefix: Seq<char>,
    width: nat,
    k2: int,
)
    requires
        is_second_run(first, files, second, dir, prefix, width),
        0 <= k2 < second.len(),
    ensures
        origin_of(first, second[k2], k2, dir, prefix, width),
        is_settled_group(second[k2], (k2 + 1) as nat, prefix, width),
    decreases k2,
{
    let k = lemma_group_origin(first, files, second, dir, prefix, width, k2);
    if k2 > 0 {
        lemma_origin_is_position(first, files, second, dir, prefix, width, k2 - 1);
        lemma_origins_in_order(first, files, second, dir, prefix, width, k2 - 1, k2, k2 - 1, k);
    }
    if k > k2 {
        let m = lemma_origins_are_onto(first, files, second, dir, prefix, width, k2);
        if m < k2 {
            lemma_origin_is_position(first, files, second, dir, prefix, width, m);
            lemma_new_bases_differ(first, m, k2, dir, prefix, width);
        } else if m == k2 {
            lemma_new_bases_differ(first, k2, k, dir, prefix, width);
        } else {
            lemma_origins_in_order(first, files, second, dir, prefix, width, k2, m, k, k2);
        }
    }
    assert(k == k2);
    let g = second[k2];
    if g.raw.is_some() {
        assert(is_member(g, g.raw.unwrap()));
    }
    if g.jpg.is_some() {
        assert(is_member(g, g.jpg.unwrap()));
    }
}

/// A second run with the same counter width renames nothing. Where the
/// groups of a first run are regular groups of one directory and the
/// counter is wide enough for their number, the grouping of what a scan
/// finds afterwards has every group at its old position, and the plan for
/// it holds no rename: every picture and every sidecar keeps the name that
/// the first run gave it.
pub proof fn lemma_second_run_renames_nothing(
    first: Seq<ImgGroup>,
    files: Seq<ImgInfo>,
    second: Seq<ImgGroup>,
    dir: Seq<char>,
    prefix: Seq<char>,
    width: nat,
    dryrun: bool,
)
    requires
        is_second_run(first, files, second, dir, prefix, width),
    ensures
        second.len() == first.len(),
        forall|k: int| 0 <= k < second.len() ==> origin_of(first, #[trigger] second[k], k, dir, prefix, width),
        plan_steps(second, prefix, width, dryrun).is_some() ==> renames_nothing(
            plan_steps(second, prefix, width, dryrun).unwrap(),
        ),
{
    assert forall|k: int| 0 <= k < second.len() implies origin_of(
        first,
        #[trigger] second[k],
        k,
        dir,
        prefix,
        width,
    ) && is_settled_group(second[k], (k + 1) as nat, prefix, width) by {
        lemma_origin_is_position(first, files, second, dir, prefix, width, k);
    }
    lemma_settled_files_keep_their_names(second, prefix, width, dryrun);
    if second.len() > first.len() {
        assert(origin_of(first, second[first.len() as int], first.len() as int, dir, prefix, width));
    }
    if first.len() > second.len() {
        let last = first.len() - 1;
        let k2 = lemma_origins_are_onto(first, files, second, dir, prefix, width, last);
        assert(origin_of(first, second[k2], k2, dir, prefix, width));
        if k2 < last {
            lemma_new_bases_differ(first, k2, last, dir, prefix, width);
        }
    }
}

/// A second run renames nothing where no counter width is configured:
/// the width is then wide enough for the groups of the first run, the
/// second run finds as many groups and so takes the same width, and its
/// plan holds no rename.
pub proof fn lemma_second_default_run_renames_nothing(
    first: Seq<ImgGroup>,
    files: Seq<ImgInfo>,
    second: Seq<ImgGroup>,
    dir: Seq<char>,
    prefix: Seq<char>,
    dryrun: bool,
)
    requires
        is_regrouping(first, files, second, dir, prefix, default_width(first.len())),
    ensures
        second.len() == first.len(),
        plan_steps(second, prefix, default_width(second.len()), dryrun).is_some() ==> renames_nothing(
            plan_steps(second, prefix, default_width(second.len()), dryrun).unwrap(),
        ),
{
    lemma_default_width_fits(first.len());
    lemma_second_run_renames_nothing(first, files, second, dir, prefix, default_width(first.len()), dryrun);
}

} // verus!
