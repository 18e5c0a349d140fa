//! Capture groups: the raw file and the preview of one shot, found by
//! their common base path and put in order of capture.

use vstd::prelude::*;
use vstd::seq_lib::*;
use crate::media::ImgInfo;
use crate::names::ImgRole;
use crate::text::{lex_le, str_le, lemma_lex_le_total, lemma_lex_le_transitive, lemma_lex_le_antisymmetric};
use crate::timestamp::CaptureTime;

verus! {

/// The files of one shot: at most one per role.
#[derive(Debug, Clone, PartialEq, Eq)]
pub struct ImgGroup {
    /// The raw capture, if the group has one.
    pub raw: Option<ImgInfo>,
    /// The camera's preview, if the group has one.
    pub jpg: Option<ImgInfo>,
}

impl ImgGroup {
    /// A group has a member, each member has the role of its place, and the
    /// members share one base path.
    pub open spec fn wf(self) -> bool {
        &&& self.raw.is_some() || self.jpg.is_some()
        &&& self.raw.is_some() ==> self.raw.unwrap().spec_role() == Some(ImgRole::Raw)
        &&& self.jpg.is_some() ==> self.jpg.unwrap().spec_role() == Some(ImgRole::CameraJPG)
        &&& self.raw.is_some() && self.jpg.is_some() ==> self.raw.unwrap().spec_base_path()
            == self.jpg.unwrap().spec_base_path()
    }

    /// The member that stands for the group: the raw capture where there is
    /// one, else the preview.
    pub open spec fn spec_first_img(self) -> ImgInfo {
        if self.raw.is_some() {
            self.raw.unwrap()
        } else {
            self.jpg.unwrap()
        }
    }

    /// The capture time of the group.
    pub open spec fn spec_date(self) -> CaptureTime {
        self.spec_first_img().date
    }

    /// The base path of the group.
    pub open spec fn spec_base_path(self) -> Seq<char> {
        self.spec_first_img().spec_base_path()
    }

    /// The member that stands for the group.
    pub fn first_img(&self) -> (r: &ImgInfo)
        requires
            self.raw.is_some() || self.jpg.is_some(),
        ensures
            *r == self.spec_first_img(),
    {
        match &self.raw {
            Some(img) => img,
            None => match &self.jpg {
                Some(img) => img,
                None => vstd::pervasive::unreached(),
            },
        }
    }

    /// The capture time of the group.
    pub fn date(&self) -> (r: &CaptureTime)
        requires
            self.raw.is_some() || self.jpg.is_some(),
        ensures
            *r == self.spec_date(),
    {
        &self.first_img().date
    }

    /// The base path of the group.
    pub fn base_path(&self) -> (r: String)
        requires
            self.raw.is_some() || self.jpg.is_some(),
        ensures
            r@ == self.spec_base_path(),
    {
        self.first_img().base_path()
    }
}

/// Whether `a` may stand before `b`: it was taken earlier, or at the same
/// time with a base path that comes no later.
pub open spec fn in_order(a: ImgGroup, b: ImgGroup) -> bool {
    a.spec_date().precedes(b.spec_date()) || (a.spec_date() == b.spec_date() && lex_le(
        a.spec_base_path(),
        b.spec_base_path(),
    ))
}

/// Whether every group of `groups` may stand before all that follow it.
pub open spec fn is_ordered(groups: Seq<ImgGroup>) -> bool {
    forall|i: int, j: int| 0 <= i < j < groups.len() ==> in_order(#[trigger] groups[i], #[trigger] groups[j])
}

/// Whether no two groups of `groups` share a base path.
pub open spec fn distinct_base_paths(groups: Seq<ImgGroup>) -> bool {
    forall|i: int, j: int|
        0 <= i < j < groups.len() ==> (#[trigger] groups[i]).spec_base_path() != (
        #[trigger] groups[j]).spec_base_path()
}

/// Whether `img` belongs under `base` in the place of `role`.
pub open spec fn fits(img: ImgInfo, base: Seq<char>, role: ImgRole) -> bool {
    img.spec_role() == Some(role) && img.spec_base_path() == base
}

/// The first file of `files` that belongs under `base` in the place of
/// `role`.
pub open spec fn first_with(files: Seq<ImgInfo>, base: Seq<char>, role: ImgRole) -> Option<ImgInfo>
    decreases files.len(),
{
    if files.len() == 0 {
        None
    } else if fits(files[0], base, role) {
        Some(files[0])
    } else {
        first_with(files.drop_first(), base, role)
    }
}

/// The group that `files` holds under `base`: for each role the first file
/// that fits.
pub open spec fn group_of(files: Seq<ImgInfo>, base: Seq<char>) -> ImgGroup {
    ImgGroup { raw: first_with(files, base, ImgRole::Raw), jpg: first_with(files, base, ImgRole::CameraJPG) }
}

/// Whether `groups` holds a group for the base path of every file of
/// `files` that has a role.
pub open spec fn covers(groups: Seq<ImgGroup>, files: Seq<ImgInfo>) -> bool {
    forall|i: int|
        0 <= i < files.len() && (#[trigger] files[i]).spec_role().is_some() ==> exists|k: int|
            0 <= k < groups.len() && (#[trigger] groups[k]).spec_base_path() == files[i].spec_base_path()
}

/// Whether every group of `groups` is the one that `files` holds under its
/// base path.
pub open spec fn drawn_from(groups: Seq<ImgGroup>, files: Seq<ImgInfo>) -> bool {
    forall|k: int|
        0 <= k < groups.len() ==> (#[trigger] groups[k]).wf() && groups[k] == group_of(
            files,
            groups[k].spec_base_path(),
        )
}

/// What `first_with` finds is a file of `files` that fits.
pub proof fn lemma_first_with_fits(files: Seq<ImgInfo>, base: Seq<char>, role: ImgRole)
    ensures
        match first_with(files, base, role) {
            Some(f) => fits(f, base, role) && files.contains(f),
            None => forall|i: int| 0 <= i < files.len() ==> !fits(#[trigger] files[i], base, role),
        },
    decreases files.len(),
{
    if files.len() > 0 {
        if fits(files[0], base, role) {
        } else {
            let rest = files.drop_first();
            lemma_first_with_fits(rest, base, role);
            match first_with(rest, base, role) {
                Some(f) => {
                    let j = choose|j: int| 0 <= j < rest.len() && rest[j] == f;
                    assert(files[j + 1] == f);
                },
                None => {
                    assert forall|i: int| 0 <= i < files.len() implies !fits(#[trigger] files[i], base, role) by {
                        if i > 0 {
                            assert(rest[i - 1] == files[i]);
                        }
                    }
                },
            }
        }
    }
}

/// Any two groups can be put in order.
pub proof fn lemma_in_order_total(a: ImgGroup, b: ImgGroup)
    ensures
        in_order(a, b) || in_order(b, a),
{
    lemma_lex_le_total(a.spec_base_path(), b.spec_base_path());
}

/// Being in order carries over a group in the middle.
pub proof fn lemma_in_order_transitive(a: ImgGroup, b: ImgGroup, c: ImgGroup)
    requires
        in_order(a, b),
        in_order(b, c),
    ensures
        in_order(a, c),
{
    if a.spec_date() == b.spec_date() && b.spec_date() == c.spec_date() {
        lemma_lex_le_transitive(a.spec_base_path(), b.spec_base_path(), c.spec_base_path());
    }
}

/// Groups that may stand either way round share time and base path.
pub proof fn lemma_in_order_antisymmetric(a: ImgGroup, b: ImgGroup)
    requires
        in_order(a, b),
        in_order(b, a),
    ensures
        a.spec_date() == b.spec_date(),
        a.spec_base_path() == b.spec_base_path(),
{
    lemma_lex_le_antisymmetric(a.spec_base_path(), b.spec_base_path());
}

/// Decides `in_order`.
pub fn group_in_order(a: &ImgGroup, b: &ImgGroup) -> (r: bool)
    requires
        a.raw.is_some() || a.jpg.is_some(),
        b.raw.is_some() || b.jpg.is_some(),
    ensures
        r == in_order(*a, *b),
{
    let x = a.date();
    let y = b.date();
    if x.is_before(y) {
        true
    } else if y.is_before(x) {
        false
    } else {
        let p = a.base_path();
        let q = b.base_path();
        str_le(p.as_str(), q.as_str())
    }
}

/// Whether every group of `groups` has a member.
pub open spec fn all_inhabited(groups: Seq<ImgGroup>) -> bool {
    forall|k: int| 0 <= k < groups.len() ==> (#[trigger] groups[k]).raw.is_some() || groups[k].jpg.is_some()
}

/// Puts `groups` in order of capture time, groups of one time in order of
/// base path. The result holds the same groups.
pub fn sort_groups(groups: Vec<ImgGroup>) -> (sorted: Vec<ImgGroup>)
    requires
        all_inhabited(groups@),
    ensures
        sorted@.to_multiset() == groups@.to_multiset(),
        is_ordered(sorted@),
{
    broadcast use vstd::multiset::group_multiset_axioms;

    let mut rest = groups;
    let mut sorted: Vec<ImgGroup> = Vec::new();
    assert(sorted@.to_multiset() =~= vstd::multiset::Multiset::<ImgGroup>::empty()) by {
        sorted@.to_multiset_ensures();
    }
    while rest.len() > 0
        invariant
            all_inhabited(rest@),
            all_inhabited(sorted@),
            is_ordered(sorted@),
            sorted@.to_multiset().add(rest@.to_multiset()) == groups@.to_multiset(),
        decreases rest.len(),
    {
        let ghost before = rest@;
        let ghost done = sorted@;
        let g = rest.pop().unwrap();
        assert(g == before.last());
        assert(rest@ == before.drop_last());
        assert(before =~= rest@.push(g));
        proof {
            to_multiset_build(rest@, g);
        }
        let mut p: usize = 0;
        while p < sorted.len() && group_in_order(&sorted[p], &g)
            invariant
                p <= sorted.len(),
                sorted@ == done,
                all_inhabited(sorted@),
                g.raw.is_some() || g.jpg.is_some(),
                forall|j: int| 0 <= j < p ==> in_order(#[trigger] sorted@[j], g),
            decreases sorted.len() - p,
        {
            p += 1;
        }
        proof {
            assert forall|j: int| p <= j < done.len() implies in_order(g, #[trigger] done[j]) by {
                lemma_in_order_total(done[p as int], g);
                if j > p {
                    lemma_in_order_transitive(g, done[p as int], done[j]);
                }
            }
            to_multiset_insert(done, p as int, g);
        }
        sorted.insert(p, g);
        assert(is_ordered(sorted@)) by {
            assert forall|i: int, j: int| 0 <= i < j < sorted@.len() implies in_order(
                #[trigger] sorted@[i],
                #[trigger] sorted@[j],
            ) by {
                if i < p && j > p {
                    lemma_in_order_transitive(done[i], g, done[j - 1]);
                }
            }
        }
        assert(sorted@.to_multiset().add(rest@.to_multiset()) =~= groups@.to_multiset());
    }
    assert(rest@.to_multiset() =~= vstd::multiset::Multiset::<ImgGroup>::empty()) by {
        rest@.to_multiset_ensures();
        assert(rest@ =~= Seq::<ImgGroup>::empty());
    }
    assert(sorted@.to_multiset() =~= groups@.to_multiset());
    sorted
}

/// A sequence that holds the same groups as one with distinct base paths,
/// each as often, has distinct base paths too.
pub proof fn lemma_distinct_carries_over(a: Seq<ImgGroup>, b: Seq<ImgGroup>)
    requires
        distinct_base_paths(a),
        a.to_multiset() == b.to_multiset(),
    ensures
        distinct_base_paths(b),
{
    broadcast use vstd::multiset::group_multiset_axioms;

    assert(a.no_duplicates()) by {
        assert forall|i: int, j: int| 0 <= i < a.len() && 0 <= j < a.len() && i != j implies a[i] != a[j] by {
            if i < j {
                assert(a[i].spec_base_path() != a[j].spec_base_path());
            } else {
                assert(a[j].spec_base_path() != a[i].spec_base_path());
            }
        }
    }
    a.lemma_multiset_has_no_duplicates();
    b.lemma_multiset_has_no_duplicates_conv();
    assert forall|i: int, j: int| 0 <= i < j < b.len() implies (#[trigger] b[i]).spec_base_path() != (
    #[trigger] b[j]).spec_base_path() by {
        to_multiset_contains(b, b[i]);
        to_multiset_contains(b, b[j]);
        to_multiset_contains(a, b[i]);
        to_multiset_contains(a, b[j]);
        assert(b.contains(b[i]) && b.contains(b[j]));
        let x = choose|x: int| 0 <= x < a.len() && a[x] == b[i];
        let y = choose|y: int| 0 <= y < a.len() && a[y] == b[j];
        assert(b[i] != b[j]);
        if x < y {
            assert(a[x].spec_base_path() != a[y].spec_base_path());
        } else {
            assert(a[y].spec_base_path() != a[x].spec_base_path());
        }
    }
}

/// Two ordered sequences of groups with distinct base paths that hold the
/// same groups are the same sequence.
pub proof fn lemma_order_is_unique(a: Seq<ImgGroup>, b: Seq<ImgGroup>)
    requires
        is_ordered(a),
        is_ordered(b),
        distinct_base_paths(a),
        distinct_base_paths(b),
        forall|k: int| 0 <= k < a.len() ==> b.contains(#[trigger] a[k]),
        forall|l: int| 0 <= l < b.len() ==> a.contains(#[trigger] b[l]),
    ensures
        a == b,
    decreases a.len(),
{
    if a.len() == 0 {
        if b.len() > 0 {
            assert(a.contains(b[0]));
        }
        assert(a =~= b);
    } else {
        assert(b.contains(a[0]));
        let l = choose|l: int| 0 <= l < b.len() && b[l] == a[0];
        assert(a.contains(b[0]));
        let k = choose|k: int| 0 <= k < a.len() && a[k] == b[0];
        if k > 0 && l > 0 {
            assert(in_order(a[0], a[k]));
            assert(in_order(b[0], b[l]));
            lemma_in_order_antisymmetric(a[0], b[0]);
            assert(a[0].spec_base_path() != a[k].spec_base_path());
        }
        assert(a[0] == b[0]);
        let a1 = a.drop_first();
        let b1 = b.drop_first();
        assert forall|i: int, j: int| 0 <= i < j < a1.len() implies in_order(#[trigger] a1[i], #[trigger] a1[j]) by {
            assert(in_order(a[i + 1], a[j + 1]));
        }
        assert forall|i: int, j: int| 0 <= i < j < b1.len() implies in_order(#[trigger] b1[i], #[trigger] b1[j]) by {
            assert(in_order(b[i + 1], b[j + 1]));
        }
        assert forall|i: int, j: int| 0 <= i < j < a1.len() implies (#[trigger] a1[i]).spec_base_path() != (
        #[trigger] a1[j]).spec_base_path() by {
            assert(a[i + 1].spec_base_path() != a[j + 1].spec_base_path());
        }
        assert forall|i: int, j: int| 0 <= i < j < b1.len() implies (#[trigger] b1[i]).spec_base_path() != (
        #[trigger] b1[j]).spec_base_path() by {
            assert(b[i + 1].spec_base_path() != b[j + 1].spec_base_path());
        }
        assert forall|i: int| 0 <= i < a1.len() implies b1.contains(#[trigger] a1[i]) by {
            assert(a1[i] == a[i + 1]);
            assert(b.contains(a[i + 1]));
            let m = choose|m: int| 0 <= m < b.len() && b[m] == a[i + 1];
            assert(a[0].spec_base_path() != a[i + 1].spec_base_path());
            assert(m > 0);
            assert(b1[m - 1] == a1[i]);
        }
        assert forall|i: int| 0 <= i < b1.len() implies a1.contains(#[trigger] b1[i]) by {
            assert(b1[i] == b[i + 1]);
            assert(a.contains(b[i + 1]));
            let m = choose|m: int| 0 <= m < a.len() && a[m] == b[i + 1];
            assert(b[0].spec_base_path() != b[i + 1].spec_base_path());
            assert(m > 0);
            assert(a1[m - 1] == b1[i]);
        }
        lemma_order_is_unique(a1, b1);
        assert(a =~= seq![a[0]] + a1);
        assert(b =~= seq![b[0]] + b1);
    }
}

/// Every group drawn from `files` is found among groups that cover
/// `files` and are drawn from them.
proof fn lemma_drawn_group_is_covered(files: Seq<ImgInfo>, g: ImgGroup, b: Seq<ImgGroup>)
    requires
        g.wf(),
        g == group_of(files, g.spec_base_path()),
        drawn_from(b, files),
        covers(b, files),
    ensures
        b.contains(g),
{
    let base = g.spec_base_path();
    lemma_first_with_fits(files, base, ImgRole::Raw);
    lemma_first_with_fits(files, base, ImgRole::CameraJPG);
    let f = g.spec_first_img();
    assert(files.contains(f));
    let i = choose|i: int| 0 <= i < files.len() && files[i] == f;
    assert(files[i].spec_role().is_some());
    let l = choose|l: int| 0 <= l < b.len() && (#[trigger] b[l]).spec_base_path() == files[i].spec_base_path();
    assert(b[l] == group_of(files, b[l].spec_base_path()));
    assert(b[l] == g);
}

/// The groups of `files` are determined, and so is their order: any two
/// sequences of groups that are drawn from `files`, cover them, have
/// distinct base paths and are in order are the same sequence.
pub proof fn lemma_groups_are_determined(files: Seq<ImgInfo>, a: Seq<ImgGroup>, b: Seq<ImgGroup>)
    requires
        drawn_from(a, files),
        covers(a, files),
        distinct_base_paths(a),
        is_ordered(a),
        drawn_from(b, files),
        covers(b, files),
        distinct_base_paths(b),
        is_ordered(b),
    ensures
        a == b,
{
    assert forall|k: int| 0 <= k < a.len() implies b.contains(#[trigger] a[k]) by {
        lemma_drawn_group_is_covered(files, a[k], b);
    }
    assert forall|l: int| 0 <= l < b.len() implies a.contains(#[trigger] b[l]) by {
        lemma_drawn_group_is_covered(files, b[l], a);
    }
    lemma_order_is_unique(a, b);
}

/// Finds the group of `groups` with the base path `base`.
fn find_group(groups: &Vec<ImgGroup>, base: &String) -> (r: Option<usize>)
    requires
        all_inhabited(groups@),
    ensures
        match r {
            Some(k) => k < groups.len() && groups[k as int].spec_base_path() == base@,
            None => forall|k: int| 0 <= k < groups.len() ==> (#[trigger] groups[k]).spec_base_path() != base@,
        },
{
    let mut k: usize = 0;
    while k < groups.len()
        invariant
            k <= groups.len(),
            all_inhabited(groups@),
            forall|j: int| 0 <= j < k ==> (#[trigger] groups[j]).spec_base_path() != base@,
        decreases groups.len() - k,
    {
        let p = groups[k].base_path();
        if p == *base {
            return Some(k);
        }
        k += 1;
    }
    None
}

/// The group with `img` in the place of `role` and the other member of `g`.
fn with_member(g: ImgGroup, role: ImgRole, img: ImgInfo) -> (r: ImgGroup)
    ensures
        r == (match role {
            ImgRole::Raw => ImgGroup { raw: Some(img), jpg: g.jpg },
            ImgRole::CameraJPG => ImgGroup { raw: g.raw, jpg: Some(img) },
        }),
{
    match role {
        ImgRole::Raw => ImgGroup { raw: Some(img), jpg: g.jpg },
        ImgRole::CameraJPG => ImgGroup { raw: g.raw, jpg: Some(img) },
    }
}

/// Sorts the files that have a role into their capture groups and puts the
/// groups in order.
///
/// Files are grouped by base path. Where several files of one base path
/// have the same role, the first of them in `imgs` is the group's member.
/// The groups come out by ascending capture time, those of one time by
/// ascending base path.
pub fn build_imgs_groups(imgs: Vec<ImgInfo>) -> (groups: Vec<ImgGroup>)
    ensures
        drawn_from(groups@, imgs@),
        covers(groups@, imgs@),
        distinct_base_paths(groups@),
        is_ordered(groups@),
{
    let ghost all = imgs@;
    let mut rest = imgs;
    let mut groups: Vec<ImgGroup> = Vec::new();
    assert(rest@ =~= all.subrange(0, rest.len() as int));
    while rest.len() > 0
        invariant
            rest.len() <= all.len(),
            rest@ == all.subrange(0, rest.len() as int),
            drawn_from(groups@, all.subrange(rest.len() as int, all.len() as int)),
            covers(groups@, all.subrange(rest.len() as int, all.len() as int)),
            distinct_base_paths(groups@),
        decreases rest.len(),
    {
        let ghost tail = all.subrange(rest.len() as int, all.len() as int);
        let ghost prior = groups@;
        let img = rest.pop().unwrap();
        let ghost files = all.subrange(rest.len() as int, all.len() as int);
        proof {
            assert(files.drop_first() =~= tail);
            assert(files[0] == img);
            assert(rest@ =~= all.subrange(0, rest.len() as int));
            assert forall|i: int| 1 <= i < files.len() implies #[trigger] files[i] == tail[i - 1] by {}
        }
        match img.role() {
            None => {
                proof {
                    assert forall|k: int| 0 <= k < prior.len() implies (#[trigger] prior[k]).wf() && prior[k]
                        == group_of(files, prior[k].spec_base_path()) by {
                        assert(prior[k] == group_of(tail, prior[k].spec_base_path()));
                    }
                    assert forall|i: int|
                        0 <= i < files.len() && (#[trigger] files[i]).spec_role().is_some() implies exists|k: int|
                        0 <= k < prior.len() && (#[trigger] prior[k]).spec_base_path()
                            == files[i].spec_base_path() by {
                        assert(files[i] == tail[i - 1]);
                    }
                }
            },
            Some(role) => {
                let base = img.base_path();
                assert(all_inhabited(groups@)) by {
                    assert forall|k: int| 0 <= k < prior.len() implies (#[trigger] prior[k]).raw.is_some()
                        || prior[k].jpg.is_some() by {
                        assert(prior[k].wf());
                    }
                }
                match find_group(&groups, &base) {
                    Some(k) => {
                        let g = groups.remove(k);
                        let merged = with_member(g, role, img);
                        groups.insert(k, merged);
                        proof {
                            assert(groups@ =~= prior.update(k as int, merged));
                            assert(g == prior[k as int]);
                            assert(g.wf() && g == group_of(tail, base@));
                            lemma_first_with_fits(tail, base@, ImgRole::Raw);
                            lemma_first_with_fits(tail, base@, ImgRole::CameraJPG);
                            assert(fits(img, base@, role));
                            assert(first_with(files, base@, role) == Some(img));
                            assert(forall|other: ImgRole|
                                other != role ==> first_with(files, base@, other) == first_with(
                                    tail,
                                    base@,
                                    other,
                                ));
                            assert(merged.spec_base_path() == base@);
                            assert(merged == group_of(files, base@));
                            assert(merged.wf());
                            assert forall|l: int| 0 <= l < groups@.len() implies (#[trigger] groups@[l]).wf()
                                && groups@[l] == group_of(files, groups@[l].spec_base_path()) by {
                                if l != k {
                                    assert(groups@[l] == prior[l]);
                                    if l < k {
                                        assert(prior[l].spec_base_path() != prior[k as int].spec_base_path());
                                    } else {
                                        assert(prior[k as int].spec_base_path() != prior[l].spec_base_path());
                                    }
                                    assert(prior[l] == group_of(tail, prior[l].spec_base_path()));
                                }
                            }
                            assert forall|i: int, j: int| 0 <= i < j < groups@.len() implies (
                            #[trigger] groups@[i]).spec_base_path() != (#[trigger] groups@[j]).spec_base_path() by {
                                assert(prior[i].spec_base_path() != prior[j].spec_base_path());
                            }
                            assert forall|i: int|
                                0 <= i < files.len() && (#[trigger] files[i]).spec_role().is_some() implies exists|
                                l: int,
                            |
                                0 <= l < groups@.len() && (#[trigger] groups@[l]).spec_base_path()
                                    == files[i].spec_base_path() by {
                                if i == 0 {
                                    assert(groups@[k as int].spec_base_path() == files[0].spec_base_path());
                                } else {
                                    assert(files[i] == tail[i - 1]);
                                    let l = choose|l: int|
                                        0 <= l < prior.len() && (#[trigger] prior[l]).spec_base_path()
                                            == tail[i - 1].spec_base_path();
                                    assert(groups@[l].spec_base_path() == prior[l].spec_base_path());
                                }
                            }
                        }
                    },
                    None => {
                        let fresh = with_member(ImgGroup { raw: None, jpg: None }, role, img);
                        groups.push(fresh);
                        proof {
                            assert(fresh.spec_base_path() == base@);
                            assert forall|other: ImgRole| first_with(tail, base@, other).is_none() by {
                                lemma_first_with_fits(tail, base@, other);
                                if first_with(tail, base@, other).is_some() {
                                    let f = first_with(tail, base@, other).unwrap();
                                    let j = choose|j: int| 0 <= j < tail.len() && tail[j] == f;
                                    assert(tail[j].spec_role().is_some());
                                    let l = choose|l: int|
                                        0 <= l < prior.len() && (#[trigger] prior[l]).spec_base_path()
                                            == tail[j].spec_base_path();
                                    assert(prior[l].spec_base_path() == base@);
                                }
                            }
                            assert(first_with(tail, base@, ImgRole::Raw).is_none());
                            assert(first_with(tail, base@, ImgRole::CameraJPG).is_none());
                            assert(fits(img, base@, role));
                            assert(first_with(files, base@, role) == Some(img));
                            assert(forall|other: ImgRole|
                                other != role ==> first_with(files, base@, other) == first_with(
                                    tail,
                                    base@,
                                    other,
                                ));
                            assert(fresh == group_of(files, base@));
                            assert forall|l: int| 0 <= l < groups@.len() implies (#[trigger] groups@[l]).wf()
                                && groups@[l] == group_of(files, groups@[l].spec_base_path()) by {
                                if l < prior.len() {
                                    assert(groups@[l] == prior[l]);
                                    assert(prior[l] == group_of(tail, prior[l].spec_base_path()));
                                }
                            }
                            assert forall|i: int, j: int| 0 <= i < j < groups@.len() implies (
                            #[trigger] groups@[i]).spec_base_path() != (#[trigger] groups@[j]).spec_base_path() by {
                                if j < prior.len() {
                                    assert(prior[i].spec_base_path() != prior[j].spec_base_path());
                                } else {
                                    assert(groups@[i] == prior[i]);
                                }
                            }
                            assert forall|i: int|
                                0 <= i < files.len() && (#[trigger] files[i]).spec_role().is_some() implies exists|
                                l: int,
                            |
                                0 <= l < groups@.len() && (#[trigger] groups@[l]).spec_base_path()
                                    == files[i].spec_base_path() by {
                                if i == 0 {
                                    assert(groups@[prior.len() as int].spec_base_path() == files[0].spec_base_path());
                                } else {
                                    assert(files[i] == tail[i - 1]);
                                    let l = choose|l: int|
                                        0 <= l < prior.len() && (#[trigger] prior[l]).spec_base_path()
                                            == tail[i - 1].spec_base_path();
                                    assert(groups@[l] == prior[l]);
                                }
                            }
                        }
                    },
                }
            },
        }
    }
    let ghost grouped = groups@;
    proof {
        assert(all.subrange(0, all.len() as int) =~= all);
        assert forall|k: int| 0 <= k < grouped.len() implies (#[trigger] grouped[k]).raw.is_some()
            || grouped[k].jpg.is_some() by {
            assert(grouped[k].wf());
        }
    }
    let sorted = sort_groups(groups);
    proof {
        lemma_distinct_carries_over(grouped, sorted@);
        assert forall|k: int| 0 <= k < sorted@.len() implies (#[trigger] sorted@[k]).wf() && sorted@[k] == group_of(
            all,
            sorted@[k].spec_base_path(),
        ) by {
            to_multiset_contains(sorted@, sorted@[k]);
            to_multiset_contains(grouped, sorted@[k]);
            assert(sorted@.contains(sorted@[k]));
            let j = choose|j: int| 0 <= j < grouped.len() && grouped[j] == sorted@[k];
            assert(grouped[j].wf());
        }
        assert forall|i: int| 0 <= i < all.len() && (#[trigger] all[i]).spec_role().is_some() implies exists|k: int|
            0 <= k < sorted@.len() && (#[trigger] sorted@[k]).spec_base_path() == all[i].spec_base_path() by {
            let j = choose|j: int|
                0 <= j < grouped.len() && (#[trigger] grouped[j]).spec_base_path() == all[i].spec_base_path();
            to_multiset_contains(sorted@, grouped[j]);
            to_multiset_contains(grouped, grouped[j]);
            assert(grouped.contains(grouped[j]));
            let k = choose|k: int| 0 <= k < sorted@.len() && sorted@[k] == grouped[j];
            assert(sorted@[k].spec_base_path() == all[i].spec_base_path());
        }
    }
    sorted
}

} // verus!
