//! New file names and the plan of renames and sidecar patches for a
//! directory's capture groups.

use vstd::prelude::*;
use vstd::string::*;
use crate::group::ImgGroup;
use crate::media::ImgInfo;
use crate::names::{
    file_suffix, kept_suffix, is_media_name, role_of, sidecar_name_of, extension, stem, lemma_name_with_extension,
    lemma_extension_has_no_dot,
    lemma_picture_suffix_is_kept, lemma_sidecar_suffix_is_kept,
};
use crate::text::{join_path, joined, zero_padded, zero_padded_string, pow10};
use crate::timestamp::{capture_time_stamp, formatted_time, name_time_format};

verus! {

/// The least `w` with `pow10(w) >= m`: the logarithm of `m` to base ten,
/// rounded up. Zero for `m` below two.
pub open spec fn ceil_log10(m: nat) -> nat
    decreases m,
{
    if m <= 1 {
        0
    } else {
        1 + ceil_log10((m + 9) / 10)
    }
}

/// The width of the counter for `group_count` groups where none is
/// configured: the rounded-up logarithm of the count plus one.
pub open spec fn default_width(group_count: nat) -> nat {
    ceil_log10(group_count + 1)
}

/// `ceil_log10(m)` is the least exponent whose power of ten reaches `m`.
pub proof fn lemma_ceil_log10_is_least(m: nat)
    requires
        m >= 1,
    ensures
        pow10(ceil_log10(m)) >= m,
        forall|v: nat| v < ceil_log10(m) ==> pow10(v) < m,
    decreases m,
{
    if m > 1 {
        let q = (m + 9) / 10;
        lemma_ceil_log10_is_least(q);
        assert(pow10(ceil_log10(m)) == 10 * pow10(ceil_log10(q)));
        assert forall|v: nat| v < ceil_log10(m) implies pow10(v) < m by {
            if v > 0 {
                let u = (v - 1) as nat;
                assert(u < ceil_log10(q));
                assert(pow10(u) < q);
                assert(pow10(v) == 10 * pow10(u));
            }
        }
    }
}

/// The default width is the least whose power of ten exceeds the number of
/// groups.
pub proof fn lemma_default_width_fits(group_count: nat)
    ensures
        pow10(default_width(group_count)) >= group_count + 1,
        forall|v: nat| v < default_width(group_count) ==> pow10(v) <= group_count,
{
    lemma_ceil_log10_is_least(group_count + 1);
}

/// The number of decimal digits of `n`, none for zero.
pub open spec fn digit_count(n: nat) -> nat
    decreases n,
{
    if n == 0 {
        0
    } else {
        1 + digit_count(n / 10)
    }
}

/// The default width for `n` groups is the number of digits of `n`.
pub proof fn lemma_default_width_is_digit_count(n: nat)
    ensures
        default_width(n) == digit_count(n),
    decreases n,
{
    if n > 0 {
        assert((n + 1 + 9) / 10 == n / 10 + 1);
        lemma_default_width_is_digit_count(n / 10);
    }
}

/// The counter width used where none is configured.
pub fn default_digits(group_count: usize) -> (w: usize)
    ensures
        w == default_width(group_count as nat),
{
    let mut x: usize = group_count;
    let mut w: usize = 0;
    while x > 0
        invariant
            digit_count(group_count as nat) == w + digit_count(x as nat),
            w + x <= group_count,
        decreases x,
    {
        x = x / 10;
        w = w + 1;
    }
    proof {
        lemma_default_width_is_digit_count(group_count as nat);
    }
    w
}

/// The new name of a file: counter, time stamp, the prefix where there is
/// one, camera model, each parted by a space, then the kept suffix.
pub open spec fn target_name(
    index: nat,
    width: nat,
    stamp: Seq<char>,
    prefix: Seq<char>,
    model: Seq<char>,
    suffix: Seq<char>,
) -> Seq<char> {
    let head = zero_padded(index, width) + seq![' '] + stamp + seq![' '];
    if prefix.len() == 0 {
        head + model + suffix
    } else {
        head + prefix + seq![' '] + model + suffix
    }
}

/// Builds the new name of a file.
pub fn target_file_name(index: usize, width: usize, stamp: &str, prefix: &str, model: &str, suffix: &str) -> (name:
    String)
    ensures
        name@ == target_name(index as nat, width as nat, stamp@, prefix@, model@, suffix@),
{
    proof {
        reveal_strlit(" ");
    }
    let mut name = zero_padded_string(index, width);
    name.append(" ");
    name.append(stamp);
    name.append(" ");
    if prefix.unicode_len() > 0 {
        name.append(prefix);
        name.append(" ");
    }
    name.append(model);
    name.append(suffix);
    assert(name@ =~= target_name(index as nat, width as nat, stamp@, prefix@, model@, suffix@));
    name
}

/// One action of a plan, to be carried out in the plan's order.
#[derive(Debug, Clone, PartialEq, Eq)]
pub enum Step {
    /// The file `from` in `dir` gets the name `to`. The change is reported
    /// in any case and made on disk only where `apply` is set.
    Rename { dir: String, from: String, to: String, apply: bool },
    /// The sidecar `sidecar` in `dir` gets `derived_from` as the path of the
    /// file it belongs to. The sidecar is read and examined in any case and
    /// written back only where `write` is set.
    Patch { dir: String, sidecar: String, derived_from: String, write: bool },
}

/// A step as plain text and flags.
pub enum StepView {
    Rename { dir: Seq<char>, from: Seq<char>, to: Seq<char>, apply: bool },
    Patch { dir: Seq<char>, sidecar: Seq<char>, derived_from: Seq<char>, write: bool },
}

impl View for Step {
    type V = StepView;

    open spec fn view(&self) -> StepView {
        match *self {
            Step::Rename { dir, from, to, apply } => StepView::Rename { dir: dir@, from: from@, to: to@, apply },
            Step::Patch { dir, sidecar, derived_from, write } => StepView::Patch {
                dir: dir@,
                sidecar: sidecar@,
                derived_from: derived_from@,
                write,
            },
        }
    }
}

impl StepView {
    /// Whether carrying out the step changes anything on disk.
    pub open spec fn mutates(self) -> bool {
        match self {
            StepView::Rename { apply, .. } => apply,
            StepView::Patch { write, .. } => write,
        }
    }

    /// Whether the step gives a file a new name.
    pub open spec fn is_rename(self) -> bool {
        self is Rename
    }
}

/// The steps of a sequence as plain values.
pub open spec fn steps_view(steps: Seq<Step>) -> Seq<StepView> {
    steps.map_values(|s: Step| s@)
}

/// What renaming one file comes to.
#[derive(Debug, Clone, PartialEq, Eq)]
pub struct Renamed {
    /// The rename to report, absent where the file has its new name already.
    pub step: Option<Step>,
    /// The name under which the file is found afterwards.
    pub name: String,
}

/// The rename that takes `src` to `target` in `dir`: none where the two are
/// the same name.
pub open spec fn rename_step(dir: Seq<char>, src: Seq<char>, target: Seq<char>, dryrun: bool) -> Option<
    StepView,
> {
    if src == target {
        None
    } else {
        Some(StepView::Rename { dir, from: src, to: target, apply: !dryrun })
    }
}

/// The name under which a file is found once its rename was handled: the
/// old one in a dry run, else the new one.
pub open spec fn name_after(src: Seq<char>, target: Seq<char>, dryrun: bool) -> Seq<char> {
    if dryrun {
        src
    } else {
        target
    }
}

/// The new name of the file `src` that belongs to `img`, with `stamp` as
/// the written capture time.
pub open spec fn new_name(
    src: Seq<char>,
    index: nat,
    img: ImgInfo,
    stamp: Seq<char>,
    prefix: Seq<char>,
    width: nat,
) -> Seq<char> {
    target_name(index, width, stamp, prefix, img.model@, kept_suffix(src))
}

/// A step as a one-step sequence, or the empty sequence.
pub open spec fn optional_step(step: Option<StepView>) -> Seq<StepView> {
    match step {
        Some(s) => seq![s],
        None => Seq::empty(),
    }
}

/// Plans the rename of the file `src_name`, the picture `img` or its
/// sidecar, given the written capture time `stamp`.
pub fn rename_file_as(
    src_name: &str,
    index: usize,
    img: &ImgInfo,
    stamp: &str,
    prefix: &str,
    index_digits: usize,
    dryrun: bool,
) -> (r: Renamed)
    ensures
        ({
            let target = new_name(src_name@, index as nat, *img, stamp@, prefix@, index_digits as nat);
            &&& r.name@ == name_after(src_name@, target, dryrun)
            &&& match r.step {
                Some(s) => rename_step(img.dir@, src_name@, target, dryrun) == Some(s@),
                None => rename_step(img.dir@, src_name@, target, dryrun).is_none(),
            }
        }),
{
    let suffix = file_suffix(src_name);
    let target = target_file_name(index, index_digits, stamp, prefix, img.model.as_str(), suffix.as_str());
    let source = String::from_str(src_name);
    if target == source {
        Renamed { step: None, name: source }
    } else if dryrun {
        Renamed {
            step: Some(Step::Rename { dir: img.dir.clone(), from: String::from_str(src_name), to: target, apply: false }),
            name: source,
        }
    } else {
        Renamed {
            step: Some(
                Step::Rename { dir: img.dir.clone(), from: source, to: target.clone(), apply: true },
            ),
            name: target,
        }
    }
}

/// Why no plan can be made.
#[derive(Debug, Clone, Copy, PartialEq, Eq, Structural)]
pub enum PlanError {
    /// The configured counter width is not one of 1 to 8.
    DigitsOutOfRange,
    /// A capture time cannot be written into a file name.
    UnwritableTimestamp,
}

/// Plans the rename of the file `src_name`, the picture `img` or its
/// sidecar. Fails where the capture time of `img` cannot be written.
pub fn rename_file(src_name: &str, index: usize, img: &ImgInfo, prefix: &str, index_digits: usize, dryrun: bool) -> (r:
    Result<Renamed, PlanError>)
    ensures
        match formatted_time(img.date, name_time_format()) {
            None => r == Err::<Renamed, PlanError>(PlanError::UnwritableTimestamp),
            Some(stamp) => r.is_ok() && ({
                let target = new_name(src_name@, index as nat, *img, stamp, prefix@, index_digits as nat);
                &&& r.unwrap().name@ == name_after(src_name@, target, dryrun)
                &&& match r.unwrap().step {
                    Some(s) => rename_step(img.dir@, src_name@, target, dryrun) == Some(s@),
                    None => rename_step(img.dir@, src_name@, target, dryrun).is_none(),
                }
            }),
        },
{
    match capture_time_stamp(&img.date) {
        None => Err(PlanError::UnwritableTimestamp),
        Some(stamp) => Ok(rename_file_as(src_name, index, img, stamp.as_str(), prefix, index_digits, dryrun)),
    }
}

/// The steps for one picture and its sidecar, given the written capture
/// time: the picture's rename, then the sidecar's rename and the patch that
/// points the sidecar at the picture under the name it has afterwards.
pub open spec fn member_steps_as(
    img: ImgInfo,
    index: nat,
    stamp: Seq<char>,
    prefix: Seq<char>,
    width: nat,
    dryrun: bool,
) -> Seq<StepView> {
    let target = new_name(img.file_name@, index, img, stamp, prefix, width);
    let primary = optional_step(rename_step(img.dir@, img.file_name@, target, dryrun));
    match img.sidecar_name {
        None => primary,
        Some(sidecar) => {
            let sidecar_target = new_name(sidecar@, index, img, stamp, prefix, width);
            primary + optional_step(rename_step(img.dir@, sidecar@, sidecar_target, dryrun)) + seq![
                StepView::Patch {
                    dir: img.dir@,
                    sidecar: name_after(sidecar@, sidecar_target, dryrun),
                    derived_from: joined(img.dir@, name_after(img.file_name@, target, dryrun)),
                    write: !dryrun,
                },
            ]
        },
    }
}

/// The steps for one picture and its sidecar; `None` where the capture
/// time cannot be written.
pub open spec fn member_steps(img: ImgInfo, index: nat, prefix: Seq<char>, width: nat, dryrun: bool) -> Option<
    Seq<StepView>,
> {
    match formatted_time(img.date, name_time_format()) {
        None => None,
        Some(stamp) => Some(member_steps_as(img, index, stamp, prefix, width, dryrun)),
    }
}

/// The steps for a member that may be absent.
pub open spec fn slot_steps(slot: Option<ImgInfo>, index: nat, prefix: Seq<char>, width: nat, dryrun: bool) -> Option<
    Seq<StepView>,
> {
    match slot {
        None => Some(Seq::empty()),
        Some(img) => member_steps(img, index, prefix, width, dryrun),
    }
}

/// One sequence after the other, where both are there.
pub open spec fn both(first: Option<Seq<StepView>>, second: Option<Seq<StepView>>) -> Option<Seq<StepView>> {
    match (first, second) {
        (Some(a), Some(b)) => Some(a + b),
        _ => None,
    }
}

/// The steps for a group: those of the raw capture, then those of the
/// preview, all under the one counter value `index`.
pub open spec fn group_steps(group: ImgGroup, index: nat, prefix: Seq<char>, width: nat, dryrun: bool) -> Option<
    Seq<StepView>,
> {
    both(slot_steps(group.raw, index, prefix, width, dryrun), slot_steps(group.jpg, index, prefix, width, dryrun))
}

/// The steps for `groups` in their order, the group at position `k`
/// counted as `k + 1`.
pub open spec fn plan_steps(groups: Seq<ImgGroup>, prefix: Seq<char>, width: nat, dryrun: bool) -> Option<
    Seq<StepView>,
>
    decreases groups.len(),
{
    if groups.len() == 0 {
        Some(Seq::empty())
    } else {
        both(
            plan_steps(groups.drop_last(), prefix, width, dryrun),
            group_steps(groups.last(), groups.len(), prefix, width, dryrun),
        )
    }
}

/// Counting is by position: the group that stands behind `groups` is
/// counted as one more than their number, so that `n` groups are counted
/// from 1 to `n` without a gap.
pub proof fn lemma_plan_counts_by_position(
    groups: Seq<ImgGroup>,
    next: ImgGroup,
    prefix: Seq<char>,
    width: nat,
    dryrun: bool,
)
    ensures
        plan_steps(groups.push(next), prefix, width, dryrun) == both(
            plan_steps(groups, prefix, width, dryrun),
            group_steps(next, groups.len() + 1, prefix, width, dryrun),
        ),
{
    assert(groups.push(next).drop_last() =~= groups);
}

/// The counter width to use: the configured one where it is one of 1 to 8,
/// the default where none is configured.
pub open spec fn chosen_width(digits: Option<u16>, group_count: nat) -> Result<nat, PlanError> {
    match digits {
        Some(d) => if 1 <= d <= 8 {
            Ok(d as nat)
        } else {
            Err(PlanError::DigitsOutOfRange)
        },
        None => Ok(default_width(group_count)),
    }
}

/// Plans the steps for one picture and its sidecar, given the written
/// capture time.
pub fn plan_member_as(img: &ImgInfo, index: usize, stamp: &str, prefix: &str, width: usize, dryrun: bool) -> (steps:
    Vec<Step>)
    ensures
        steps_view(steps@) == member_steps_as(*img, index as nat, stamp@, prefix@, width as nat, dryrun),
{
    let mut steps: Vec<Step> = Vec::new();
    let primary = rename_file_as(img.file_name.as_str(), index, img, stamp, prefix, width, dryrun);
    let Renamed { step: primary_step, name: primary_name } = primary;
    match primary_step {
        Some(s) => {
            steps.push(s);
        },
        None => {},
    }
    match &img.sidecar_name {
        None => {},
        Some(sidecar) => {
            let moved = rename_file_as(sidecar.as_str(), index, img, stamp, prefix, width, dryrun);
            let Renamed { step: sidecar_step, name: sidecar_after } = moved;
            match sidecar_step {
                Some(s) => {
                    steps.push(s);
                },
                None => {},
            }
            let derived_from = join_path(img.dir.as_str(), primary_name.as_str());
            steps.push(Step::Patch { dir: img.dir.clone(), sidecar: sidecar_after, derived_from, write: !dryrun });
        },
    }
    assert(steps_view(steps@) =~= member_steps_as(*img, index as nat, stamp@, prefix@, width as nat, dryrun));
    steps
}

/// Plans the steps for one picture and its sidecar.
pub fn plan_member(img: &ImgInfo, index: usize, prefix: &str, width: usize, dryrun: bool) -> (r: Option<Vec<Step>>)
    ensures
        match member_steps(*img, index as nat, prefix@, width as nat, dryrun) {
            None => r.is_none(),
            Some(steps) => r.is_some() && steps_view(r.unwrap()@) == steps,
        },
{
    match capture_time_stamp(&img.date) {
        None => None,
        Some(stamp) => Some(plan_member_as(img, index, stamp.as_str(), prefix, width, dryrun)),
    }
}

/// Plans the steps for a member that may be absent, after `steps`.
fn plan_slot(steps: &mut Vec<Step>, slot: &Option<ImgInfo>, index: usize, prefix: &str, width: usize, dryrun: bool) -> (ok:
    bool)
    ensures
        ok == slot_steps(*slot, index as nat, prefix@, width as nat, dryrun).is_some(),
        ok ==> steps_view(final(steps)@) == steps_view(old(steps)@) + slot_steps(
            *slot,
            index as nat,
            prefix@,
            width as nat,
            dryrun,
        ).unwrap(),
{
    match slot {
        None => {
            assert(steps_view(steps@) + Seq::<StepView>::empty() =~= steps_view(steps@));
            true
        },
        Some(img) => match plan_member(img, index, prefix, width, dryrun) {
            None => false,
            Some(mut more) => {
                let ghost before = steps@;
                let ghost added = more@;
                steps.append(&mut more);
                assert(steps_view(steps@) =~= steps_view(before) + steps_view(added));
                true
            },
        },
    }
}

/// Plans the steps for a group, after `steps`. Where it fails, `steps` is
/// of no further use.
fn plan_group(steps: &mut Vec<Step>, group: &ImgGroup, index: usize, prefix: &str, width: usize, dryrun: bool) -> (ok:
    bool)
    ensures
        ok == group_steps(*group, index as nat, prefix@, width as nat, dryrun).is_some(),
        ok ==> steps_view(final(steps)@) == steps_view(old(steps)@) + group_steps(
            *group,
            index as nat,
            prefix@,
            width as nat,
            dryrun,
        ).unwrap(),
{
    let ghost start = steps_view(steps@);
    if !plan_slot(steps, &group.raw, index, prefix, width, dryrun) {
        return false;
    }
    if !plan_slot(steps, &group.jpg, index, prefix, width, dryrun) {
        return false;
    }
    proof {
        let a = slot_steps(group.raw, index as nat, prefix@, width as nat, dryrun).unwrap();
        let b = slot_steps(group.jpg, index as nat, prefix@, width as nat, dryrun).unwrap();
        assert(start + a + b =~= start + (a + b));
    }
    true
}

/// Plans the renaming of a directory's capture groups.
///
/// The groups are taken in their order and counted from one. The counter is
/// written `digits` wide where that is configured, which must then be one
/// of 1 to 8, else as wide as the number of groups asks for. In a dry run
/// every step is marked as not to be carried out on disk, and the patches
/// name the files as they are before.
pub fn reorganize_images(groups: &Vec<ImgGroup>, prefix: &str, dryrun: bool, digits: Option<u16>) -> (r: Result<
    Vec<Step>,
    PlanError,
>)
    ensures
        match chosen_width(digits, groups@.len()) {
            Err(e) => r == Err::<Vec<Step>, PlanError>(e),
            Ok(width) => match plan_steps(groups@, prefix@, width, dryrun) {
                None => r == Err::<Vec<Step>, PlanError>(PlanError::UnwritableTimestamp),
                Some(steps) => r.is_ok() && steps_view(r.unwrap()@) == steps,
            },
        },
{
    let width: usize = match digits {
        Some(d) => {
            if d < 1 || d > 8 {
                return Err(PlanError::DigitsOutOfRange);
            }
            d as usize
        },
        None => default_digits(groups.len()),
    };
    let mut steps: Vec<Step> = Vec::new();
    let mut k: usize = 0;
    assert(groups@.subrange(0, 0) =~= Seq::<ImgGroup>::empty());
    assert(steps_view(steps@) =~= Seq::<StepView>::empty());
    while k < groups.len()
        invariant
            k <= groups.len(),
            chosen_width(digits, groups@.len()) == Ok::<nat, PlanError>(width as nat),
            plan_steps(groups@.subrange(0, k as int), prefix@, width as nat, dryrun) == Some(steps_view(steps@)),
        decreases groups.len() - k,
    {
        let ghost upto = groups@.subrange(0, k + 1);
        proof {
            assert(upto.drop_last() =~= groups@.subrange(0, k as int));
            assert(upto.last() == groups@[k as int]);
        }
        let ok = plan_group(&mut steps, &groups[k], k + 1, prefix, width, dryrun);
        if !ok {
            proof {
                assert(plan_steps(upto, prefix@, width as nat, dryrun).is_none());
                lemma_plan_fails_on(groups@, (k + 1) as int, prefix@, width as nat, dryrun);
            }
            return Err(PlanError::UnwritableTimestamp);
        }
        k += 1;
    }
    assert(groups@.subrange(0, k as int) =~= groups@);
    Ok(steps)
}

/// A plan that fails for the first `upto` groups fails for all of them.
pub proof fn lemma_plan_fails_on(groups: Seq<ImgGroup>, upto: int, prefix: Seq<char>, width: nat, dryrun: bool)
    requires
        0 <= upto <= groups.len(),
        plan_steps(groups.subrange(0, upto), prefix, width, dryrun).is_none(),
    ensures
        plan_steps(groups, prefix, width, dryrun).is_none(),
    decreases groups.len(),
{
    if upto == groups.len() {
        assert(groups.subrange(0, upto) =~= groups);
    } else {
        assert(groups.drop_last().subrange(0, upto) =~= groups.subrange(0, upto));
        lemma_plan_fails_on(groups.drop_last(), upto, prefix, width, dryrun);
    }
}

/// Whether no step of `steps` changes anything on disk.
pub open spec fn changes_nothing(steps: Seq<StepView>) -> bool {
    forall|i: int| 0 <= i < steps.len() ==> !(#[trigger] steps[i]).mutates()
}

/// Whether no step of `steps` gives a file a new name.
pub open spec fn renames_nothing(steps: Seq<StepView>) -> bool {
    forall|i: int| 0 <= i < steps.len() ==> !(#[trigger] steps[i]).is_rename()
}

/// Whether the picture `img` and its sidecar carry the names that the
/// counter value `index` gives them.
pub open spec fn is_settled(img: ImgInfo, index: nat, prefix: Seq<char>, width: nat) -> bool {
    match formatted_time(img.date, name_time_format()) {
        None => true,
        Some(stamp) => {
            &&& img.file_name@ == new_name(img.file_name@, index, img, stamp, prefix, width)
            &&& match img.sidecar_name {
                None => true,
                Some(sidecar) => sidecar@ == new_name(sidecar@, index, img, stamp, prefix, width),
            }
        },
    }
}

/// Whether every member of the group carries the name that `index` gives it.
pub open spec fn is_settled_group(group: ImgGroup, index: nat, prefix: Seq<char>, width: nat) -> bool {
    &&& group.raw.is_some() ==> is_settled(group.raw.unwrap(), index, prefix, width)
    &&& group.jpg.is_some() ==> is_settled(group.jpg.unwrap(), index, prefix, width)
}

/// Steps that change nothing, one sequence after the other, change nothing.
proof fn lemma_changes_nothing_joined(a: Seq<StepView>, b: Seq<StepView>)
    requires
        changes_nothing(a),
        changes_nothing(b),
    ensures
        changes_nothing(a + b),
{
    assert forall|i: int| 0 <= i < (a + b).len() implies !(#[trigger] (a + b)[i]).mutates() by {
        if i < a.len() {
            assert((a + b)[i] == a[i]);
        } else {
            assert((a + b)[i] == b[i - a.len()]);
        }
    }
}

/// In a dry run the steps for a member that may be absent change nothing.
proof fn lemma_dry_slot_changes_nothing(slot: Option<ImgInfo>, index: nat, prefix: Seq<char>, width: nat)
    ensures
        slot_steps(slot, index, prefix, width, true).is_some() ==> changes_nothing(
            slot_steps(slot, index, prefix, width, true).unwrap(),
        ),
{
    if slot.is_some() && slot_steps(slot, index, prefix, width, true).is_some() {
        let img = slot.unwrap();
        let stamp = formatted_time(img.date, name_time_format()).unwrap();
        let target = new_name(img.file_name@, index, img, stamp, prefix, width);
        let primary = optional_step(rename_step(img.dir@, img.file_name@, target, true));
        assert(changes_nothing(primary));
        if img.sidecar_name.is_some() {
            let sidecar = img.sidecar_name.unwrap();
            let sidecar_target = new_name(sidecar@, index, img, stamp, prefix, width);
            let second = optional_step(rename_step(img.dir@, sidecar@, sidecar_target, true));
            let patch = seq![
                StepView::Patch {
                    dir: img.dir@,
                    sidecar: name_after(sidecar@, sidecar_target, true),
                    derived_from: joined(img.dir@, name_after(img.file_name@, target, true)),
                    write: false,
                },
            ];
            assert(changes_nothing(second));
            assert(changes_nothing(patch));
            lemma_changes_nothing_joined(primary, second);
            lemma_changes_nothing_joined(primary + second, patch);
        }
    }
}

/// What stands before the kept suffix in a new name.
pub open spec fn name_front(index: nat, width: nat, stamp: Seq<char>, prefix: Seq<char>, model: Seq<char>) -> Seq<
    char,
> {
    target_name(index, width, stamp, prefix, model, Seq::empty())
}

/// The new name of a picture or a sidecar is a name that renaming leaves as
/// it is.
pub proof fn lemma_new_name_is_stable(
    src: Seq<char>,
    index: nat,
    img: ImgInfo,
    stamp: Seq<char>,
    prefix: Seq<char>,
    width: nat,
)
    requires
        is_media_name(src),
    ensures
        new_name(new_name(src, index, img, stamp, prefix, width), index, img, stamp, prefix, width) == new_name(
            src,
            index,
            img,
            stamp,
            prefix,
            width,
        ),
{
    let front = name_front(index, width, stamp, prefix, img.model@);
    let once = new_name(src, index, img, stamp, prefix, width);
    assert(once =~= front + kept_suffix(src));
    if role_of(src).is_some() {
        lemma_picture_suffix_is_kept(front, src);
    } else {
        let picture = choose|picture: Seq<char>|
            role_of(picture).is_some() && src == #[trigger] sidecar_name_of(picture);
        lemma_sidecar_suffix_is_kept(front, picture);
    }
    assert(kept_suffix(once) == kept_suffix(src));
}

/// The new name of a picture is the counter, time stamp, prefix and model,
/// then a dot and the old extension. So the picture keeps its role, and
/// the raw capture and the preview of one shot, where they agree on the
/// model, get names that differ in the extension alone.
pub proof fn lemma_new_name_keeps_extension(
    src: Seq<char>,
    index: nat,
    img: ImgInfo,
    stamp: Seq<char>,
    prefix: Seq<char>,
    width: nat,
)
    requires
        role_of(src).is_some(),
    ensures
        new_name(src, index, img, stamp, prefix, width) == name_front(index, width, stamp, prefix, img.model@)
            + seq!['.'] + extension(src),
        stem(new_name(src, index, img, stamp, prefix, width)) == name_front(
            index,
            width,
            stamp,
            prefix,
            img.model@,
        ),
        extension(new_name(src, index, img, stamp, prefix, width)) == extension(src),
        role_of(new_name(src, index, img, stamp, prefix, width)) == role_of(src),
{
    let front = name_front(index, width, stamp, prefix, img.model@);
    let ext = extension(src);
    lemma_picture_suffix_is_kept(front, src);
    lemma_extension_has_no_dot(src);
    lemma_new_name_is_front_and_suffix(src, index, img, stamp, prefix, width);
    lemma_name_with_extension(front, ext);
    assert(front + kept_suffix(src) =~= front + seq!['.'] + ext);
}

/// A new name is its front and the kept suffix, and the front is not
/// empty.
pub proof fn lemma_new_name_is_front_and_suffix(
    src: Seq<char>,
    index: nat,
    img: ImgInfo,
    stamp: Seq<char>,
    prefix: Seq<char>,
    width: nat,
)
    ensures
        new_name(src, index, img, stamp, prefix, width) == name_front(index, width, stamp, prefix, img.model@)
            + kept_suffix(src),
        name_front(index, width, stamp, prefix, img.model@).len() >= 2,
{
    let front = name_front(index, width, stamp, prefix, img.model@);
    assert(new_name(src, index, img, stamp, prefix, width) =~= front + kept_suffix(src));
}

/// A picture that was renamed as planned, together with its sidecar, is
/// settled at the position it was renamed for.
pub proof fn lemma_renamed_member_is_settled(before: ImgInfo, after: ImgInfo, index: nat, prefix: Seq<char>, width: nat)
    requires
        before.spec_role().is_some(),
        before.sidecar_name.is_some() ==> before.sidecar_name.unwrap()@ == sidecar_name_of(before.file_name@),
        after.date == before.date,
        after.model@ == before.model@,
        after.sidecar_name.is_some() == before.sidecar_name.is_some(),
        formatted_time(before.date, name_time_format()).is_some() ==> {
            let stamp = formatted_time(before.date, name_time_format()).unwrap();
            &&& after.file_name@ == new_name(before.file_name@, index, before, stamp, prefix, width)
            &&& before.sidecar_name.is_some() ==> after.sidecar_name.unwrap()@ == new_name(
                before.sidecar_name.unwrap()@,
                index,
                before,
                stamp,
                prefix,
                width,
            )
        },
    ensures
        is_settled(after, index, prefix, width),
{
    if formatted_time(before.date, name_time_format()).is_some() {
        let stamp = formatted_time(before.date, name_time_format()).unwrap();
        lemma_new_name_is_stable(before.file_name@, index, before, stamp, prefix, width);
        if before.sidecar_name.is_some() {
            let sidecar = before.sidecar_name.unwrap()@;
            assert(sidecar == sidecar_name_of(before.file_name@));
            assert(is_media_name(sidecar));
            lemma_new_name_is_stable(sidecar, index, before, stamp, prefix, width);
        }
    }
}

/// Whether `step` acts on the picture `img` or on its sidecar, as the
/// counter value `index` has it: a rename takes the picture or its sidecar
/// from the name it has to its new name; a patch goes to the sidecar,
/// under the name it has or under its new name. Either stays in the
/// picture's directory.
pub open spec fn acts_on(step: StepView, img: ImgInfo, index: nat, prefix: Seq<char>, width: nat) -> bool {
    let stamp = formatted_time(img.date, name_time_format()).unwrap();
    match step {
        StepView::Rename { dir, from, to, .. } => {
            &&& dir == img.dir@
            &&& to == new_name(from, index, img, stamp, prefix, width)
            &&& from == img.file_name@ || (img.sidecar_name.is_some() && from == img.sidecar_name.unwrap()@)
        },
        StepView::Patch { dir, sidecar, .. } => {
            &&& dir == img.dir@
            &&& img.sidecar_name.is_some()
            &&& sidecar == img.sidecar_name.unwrap()@ || sidecar == new_name(
                img.sidecar_name.unwrap()@,
                index,
                img,
                stamp,
                prefix,
                width,
            )
        },
    }
}

/// Whether `step` acts on a member of the group at some position of
/// `groups`, or on that member's sidecar, as that position has it.
pub open spec fn acts_on_a_member(step: StepView, groups: Seq<ImgGroup>, prefix: Seq<char>, width: nat) -> bool {
    exists|k: int, img: ImgInfo|
        0 <= k < groups.len() && ((#[trigger] groups[k]).raw == Some(img) || groups[k].jpg == Some(img))
            && #[trigger] acts_on(step, img, (k + 1) as nat, prefix, width)
}

/// Every step for a member that may be absent acts on that member or on
/// its sidecar.
proof fn lemma_slot_steps_act_on_it(slot: Option<ImgInfo>, index: nat, prefix: Seq<char>, width: nat, dryrun: bool)
    requires
        slot_steps(slot, index, prefix, width, dryrun).is_some(),
    ensures
        forall|t: int|
            0 <= t < slot_steps(slot, index, prefix, width, dryrun).unwrap().len() ==> slot.is_some() && acts_on(
                #[trigger] slot_steps(slot, index, prefix, width, dryrun).unwrap()[t],
                slot.unwrap(),
                index,
                prefix,
                width,
            ),
{
}

/// A plan touches nothing but the members of its groups and their
/// sidecars: every step renames a member or a member's sidecar, or patches
/// a member's sidecar, within the member's directory.
pub proof fn lemma_steps_act_on_members(groups: Seq<ImgGroup>, prefix: Seq<char>, width: nat, dryrun: bool)
    requires
        plan_steps(groups, prefix, width, dryrun).is_some(),
    ensures
        forall|t: int|
            0 <= t < plan_steps(groups, prefix, width, dryrun).unwrap().len() ==> acts_on_a_member(
                #[trigger] plan_steps(groups, prefix, width, dryrun).unwrap()[t],
                groups,
                prefix,
                width,
            ),
    decreases groups.len(),
{
    if groups.len() > 0 {
        let front = groups.drop_last();
        let last = groups.last();
        let n: nat = groups.len();
        lemma_steps_act_on_members(front, prefix, width, dryrun);
        lemma_slot_steps_act_on_it(last.raw, n, prefix, width, dryrun);
        lemma_slot_steps_act_on_it(last.jpg, n, prefix, width, dryrun);
        let before = plan_steps(front, prefix, width, dryrun).unwrap();
        let a = slot_steps(last.raw, n, prefix, width, dryrun).unwrap();
        let b = slot_steps(last.jpg, n, prefix, width, dryrun).unwrap();
        let steps = plan_steps(groups, prefix, width, dryrun).unwrap();
        assert(steps == before + (a + b));
        assert forall|t: int| 0 <= t < steps.len() implies acts_on_a_member(
            #[trigger] steps[t],
            groups,
            prefix,
            width,
        ) by {
            if t < before.len() {
                assert(steps[t] == before[t]);
                assert(acts_on_a_member(before[t], front, prefix, width));
                let (k, img) = choose|k: int, img: ImgInfo|
                    0 <= k < front.len() && ((#[trigger] front[k]).raw == Some(img) || front[k].jpg == Some(img))
                        && #[trigger] acts_on(before[t], img, (k + 1) as nat, prefix, width);
                assert(groups[k] == front[k]);
            } else if t < before.len() + a.len() {
                assert(steps[t] == a[t - before.len()]);
                assert(groups[n - 1].raw == Some(last.raw.unwrap()));
                assert(acts_on(steps[t], last.raw.unwrap(), ((n - 1) + 1) as nat, prefix, width));
            } else {
                assert(steps[t] == b[t - before.len() - a.len()]);
                assert(groups[n - 1].jpg == Some(last.jpg.unwrap()));
                assert(acts_on(steps[t], last.jpg.unwrap(), ((n - 1) + 1) as nat, prefix, width));
            }
        }
    }
}

/// In a dry run no step of a plan changes anything on disk.
pub proof fn lemma_dry_run_changes_nothing(groups: Seq<ImgGroup>, prefix: Seq<char>, width: nat)
    ensures
        plan_steps(groups, prefix, width, true).is_some() ==> changes_nothing(
            plan_steps(groups, prefix, width, true).unwrap(),
        ),
    decreases groups.len(),
{
    if groups.len() > 0 && plan_steps(groups, prefix, width, true).is_some() {
        let g = groups.last();
        lemma_dry_run_changes_nothing(groups.drop_last(), prefix, width);
        lemma_dry_slot_changes_nothing(g.raw, groups.len(), prefix, width);
        lemma_dry_slot_changes_nothing(g.jpg, groups.len(), prefix, width);
        let a = slot_steps(g.raw, groups.len(), prefix, width, true).unwrap();
        let b = slot_steps(g.jpg, groups.len(), prefix, width, true).unwrap();
        lemma_changes_nothing_joined(a, b);
        lemma_changes_nothing_joined(plan_steps(groups.drop_last(), prefix, width, true).unwrap(), a + b);
    }
}

/// A plan holds no rename where every file already has the name that its
/// group's position gives it: renaming what is renamed is no change.
pub proof fn lemma_settled_files_keep_their_names(groups: Seq<ImgGroup>, prefix: Seq<char>, width: nat, dryrun: bool)
    requires
        forall|k: int| 0 <= k < groups.len() ==> is_settled_group(#[trigger] groups[k], (k + 1) as nat, prefix, width),
    ensures
        plan_steps(groups, prefix, width, dryrun).is_some() ==> renames_nothing(
            plan_steps(groups, prefix, width, dryrun).unwrap(),
        ),
    decreases groups.len(),
{
    if groups.len() > 0 {
        let front = groups.drop_last();
        assert forall|k: int| 0 <= k < front.len() implies is_settled_group(
            #[trigger] front[k],
            (k + 1) as nat,
            prefix,
            width,
        ) by {
            assert(front[k] == groups[k]);
        }
        lemma_settled_files_keep_their_names(front, prefix, width, dryrun);
        assert(is_settled_group(groups[groups.len() - 1], groups.len(), prefix, width));
    }
}

} // verus!
