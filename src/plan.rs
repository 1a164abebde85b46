//! Rename plans: which file moves to which name, computed before anything on disk changes.
use vstd::prelude::*;
use crate::index::{image_target, image_target_name, label_target, label_target_name};
use crate::name::{
    extension, extension_of, is_image_file, is_image_name, is_label_file, is_label_name,
    label_key, label_key_of,
};
use crate::order::{sort_names, sorted_names, views};

verus! {

/// One planned move: the file named `from` is to be named `to`, in the same folder.
#[derive(Debug)]
pub struct Rename {
    pub from: String,
    pub to: String,
}

impl View for Rename {
    type V = (Seq<char>, Seq<char>);

    open spec fn view(&self) -> (Seq<char>, Seq<char>) {
        (self.from@, self.to@)
    }
}

pub open spec fn rename_views(v: Seq<Rename>) -> Seq<(Seq<char>, Seq<char>)> {
    v.map_values(|r: Rename| r@)
}

/// The destinations of a plan, in plan order.
pub open spec fn targets(p: Seq<(Seq<char>, Seq<char>)>) -> Seq<Seq<char>> {
    p.map_values(|r: (Seq<char>, Seq<char>)| r.1)
}

/// Why a plan was refused.
#[derive(Debug)]
pub enum PlanError {
    /// Two files were planned to the same new name.
    DuplicateTarget(String),
}

/// The map that the pairs of `s` make, a later pair replacing an earlier one with the same key.
pub open spec fn pairs_map(s: Seq<(Seq<char>, Seq<char>)>) -> Map<Seq<char>, Seq<char>>
    decreases s.len(),
{
    if s.len() == 0 {
        Map::empty()
    } else {
        pairs_map(s.drop_last()).insert(s.last().0, s.last().1)
    }
}

pub open spec fn entry_views(s: Seq<(String, String)>) -> Seq<(Seq<char>, Seq<char>)> {
    s.map_values(|e: (String, String)| (e.0@, e.1@))
}

/// For each annotation file name as it is on disk, the new name it is to get.
pub struct LabelNameMap {
    entries: Vec<(String, String)>,
}

impl View for LabelNameMap {
    type V = Map<Seq<char>, Seq<char>>;

    closed spec fn view(&self) -> Map<Seq<char>, Seq<char>> {
        pairs_map(entry_views(self.entries@))
    }
}

proof fn lemma_pairs_map_lookup(s: Seq<(Seq<char>, Seq<char>)>, i: int)
    requires
        0 <= i < s.len(),
        forall|j: int| 0 <= j < s.len() && j != i ==> #[trigger] s[j].0 != s[i].0,
    ensures
        pairs_map(s).contains_key(s[i].0),
        pairs_map(s)[s[i].0] == s[i].1,
    decreases s.len(),
{
    if i < s.len() - 1 {
        lemma_pairs_map_lookup(s.drop_last(), i);
        assert(s.last().0 != s[i].0);
    }
}

proof fn lemma_pairs_map_absent(s: Seq<(Seq<char>, Seq<char>)>, k: Seq<char>)
    requires
        forall|j: int| 0 <= j < s.len() ==> #[trigger] s[j].0 != k,
    ensures
        !pairs_map(s).contains_key(k),
    decreases s.len(),
{
    if s.len() > 0 {
        lemma_pairs_map_absent(s.drop_last(), k);
        assert(s.last().0 != k);
    }
}

proof fn lemma_pairs_map_update(s: Seq<(Seq<char>, Seq<char>)>, i: int, v: Seq<char>)
    requires
        0 <= i < s.len(),
        forall|a: int, b: int| 0 <= a < b < s.len() ==> #[trigger] s[a].0 != #[trigger] s[b].0,
    ensures
        pairs_map(s.update(i, (s[i].0, v))) =~= pairs_map(s).insert(s[i].0, v),
    decreases s.len(),
{
    let t = s.update(i, (s[i].0, v));
    if i == s.len() - 1 {
        assert(t.drop_last() =~= s.drop_last());
    } else {
        assert(t.drop_last() =~= s.drop_last().update(i, (s[i].0, v)));
        lemma_pairs_map_update(s.drop_last(), i, v);
        assert(s.last().0 != s[i].0);
    }
}

impl LabelNameMap {
    /// Keys are distinct.
    pub closed spec fn wf(&self) -> bool {
        forall|a: int, b: int|
            0 <= a < b < self.entries@.len() ==> #[trigger] self.entries@[a].0@
                != #[trigger] self.entries@[b].0@
    }

    /// An empty map.
    pub fn new() -> (r: LabelNameMap)
        ensures
            r.wf(),
            r@ == Map::<Seq<char>, Seq<char>>::empty(),
    {
        let r = LabelNameMap { entries: Vec::new() };
        assert(entry_views(r.entries@) =~= Seq::<(Seq<char>, Seq<char>)>::empty());
        r
    }

    fn position(&self, k: &str) -> (r: Option<usize>)
        ensures
            r matches Some(i) ==> i < self.entries@.len() && self.entries@[i as int].0@ == k@,
            r is None ==> forall|j: int|
                0 <= j < self.entries@.len() ==> #[trigger] self.entries@[j].0@ != k@,
    {
        let key = String::from_str(k);
        let mut i: usize = 0;
        while i < self.entries.len()
            invariant
                i <= self.entries@.len(),
                key@ == k@,
                forall|j: int| 0 <= j < i ==> #[trigger] self.entries@[j].0@ != k@,
            decreases self.entries@.len() - i,
        {
            if self.entries[i].0 == key {
                return Some(i);
            }
            i = i + 1;
        }
        None
    }

    /// Maps `k` to `v`, replacing what `k` was mapped to before.
    pub fn insert(&mut self, k: String, v: String)
        requires
            old(self).wf(),
        ensures
            final(self).wf(),
            final(self)@ == old(self)@.insert(k@, v@),
    {
        let ghost before = entry_views(self.entries@);
        match self.position(k.as_str()) {
            Some(i) => {
                self.entries.set(i, (k, v));
                proof {
                    assert(entry_views(self.entries@) =~= before.update(i as int, (before[i as int].0, v@)));
                    lemma_pairs_map_update(before, i as int, v@);
                }
            },
            None => {
                self.entries.push((k, v));
                proof {
                    assert(entry_views(self.entries@).drop_last() =~= before);
                }
            },
        }
    }

    /// The new name that `k` maps to, if any.
    pub fn get(&self, k: &str) -> (r: Option<&String>)
        requires
            self.wf(),
        ensures
            r is Some <==> self@.contains_key(k@),
            r matches Some(v) ==> v@ == self@[k@],
    {
        let ghost ev = entry_views(self.entries@);
        match self.position(k) {
            Some(i) => {
                proof {
                    lemma_pairs_map_lookup(ev, i as int);
                }
                Some(&self.entries[i].1)
            },
            None => {
                proof {
                    assert forall|j: int| 0 <= j < ev.len() implies #[trigger] ev[j].0 != k@ by {
                        assert(ev[j].0 == self.entries@[j].0@);
                    }
                    lemma_pairs_map_absent(ev, k@);
                }
                None
            },
        }
    }

    /// How many keys the map holds.
    pub fn len(&self) -> (r: usize)
        requires
            self.wf(),
        ensures
            r == self@.dom().len(),
    {
        proof {
            self.lemma_len();
        }
        self.entries.len()
    }

    proof fn lemma_len(&self)
        requires
            self.wf(),
        ensures
            self.entries@.len() == self@.dom().len(),
    {
        lemma_pairs_map_len(entry_views(self.entries@));
    }
}

proof fn lemma_pairs_map_len(s: Seq<(Seq<char>, Seq<char>)>)
    requires
        forall|a: int, b: int| 0 <= a < b < s.len() ==> #[trigger] s[a].0 != #[trigger] s[b].0,
    ensures
        pairs_map(s).dom().finite(),
        pairs_map(s).dom().len() == s.len(),
    decreases s.len(),
{
    if s.len() > 0 {
        let d = s.drop_last();
        lemma_pairs_map_len(d);
        assert forall|j: int| 0 <= j < d.len() implies #[trigger] d[j].0 != s.last().0 by {
            assert(s[j].0 != s[s.len() - 1].0);
        }
        lemma_pairs_map_absent(d, s.last().0);
    }
}

pub open spec fn image_filter() -> spec_fn(Seq<char>) -> bool {
    |n: Seq<char>| is_image_name(n)
}

pub open spec fn label_filter() -> spec_fn(Seq<char>) -> bool {
    |n: Seq<char>| is_label_name(n)
}

/// The images of a listing, in name order: the order that numbers them.
pub open spec fn image_files(listing: Seq<Seq<char>>) -> Seq<Seq<char>> {
    sorted_names(listing.filter(image_filter()))
}

/// The annotation files of a listing, in name order.
pub open spec fn label_files(listing: Seq<Seq<char>>) -> Seq<Seq<char>> {
    sorted_names(listing.filter(label_filter()))
}

/// The image at position `i` gets index `i + 1`, and keeps its extension.
pub open spec fn image_plan(imgs: Seq<Seq<char>>) -> Seq<(Seq<char>, Seq<char>)> {
    Seq::new(
        imgs.len(),
        |i: int| (imgs[i], image_target((i + 1) as nat, extension_of(imgs[i]))),
    )
}

/// Each image's annotation name maps to the annotation target of the image's index; where
/// two images share a stem, the later one wins.
pub open spec fn label_name_map(imgs: Seq<Seq<char>>) -> Map<Seq<char>, Seq<char>>
    decreases imgs.len(),
{
    if imgs.len() == 0 {
        Map::empty()
    } else {
        label_name_map(imgs.drop_last()).insert(
            label_key_of(imgs.last()),
            label_target(imgs.len()),
        )
    }
}

fn keep_images(listing: &Vec<String>) -> (r: Vec<String>)
    ensures
        views(r@) == views(listing@).filter(image_filter()),
{
    let ghost all = views(listing@);
    let mut r: Vec<String> = Vec::new();
    let mut i: usize = 0;
    assert(all.take(0) =~= Seq::<Seq<char>>::empty());
    assert(views(r@) =~= Seq::<Seq<char>>::empty());
    while i < listing.len()
        invariant
            i <= listing@.len(),
            all == views(listing@),
            views(r@) == all.take(i as int).filter(image_filter()),
        decreases listing@.len() - i,
    {
        assert(all.take(i + 1).drop_last() =~= all.take(i as int));
        let ghost before = views(r@);
        let keep = is_image_file(listing[i].as_str());
        if keep {
            r.push(listing[i].clone());
            assert(views(r@) =~= before.push(all[i as int]));
        }
        proof {
            reveal(Seq::filter);
            let t = all.take(i + 1);
            assert(t.last() == all[i as int]);
            assert(image_filter()(t.last()) == keep);
            assert(t.filter(image_filter()) == if keep {
                t.drop_last().filter(image_filter()).push(t.last())
            } else {
                t.drop_last().filter(image_filter())
            });
        }
        i = i + 1;
    }
    assert(all.take(listing@.len() as int) =~= all);
    r
}

fn keep_labels(listing: &Vec<String>) -> (r: Vec<String>)
    ensures
        views(r@) == views(listing@).filter(label_filter()),
{
    let ghost all = views(listing@);
    let mut r: Vec<String> = Vec::new();
    let mut i: usize = 0;
    assert(all.take(0) =~= Seq::<Seq<char>>::empty());
    assert(views(r@) =~= Seq::<Seq<char>>::empty());
    while i < listing.len()
        invariant
            i <= listing@.len(),
            all == views(listing@),
            views(r@) == all.take(i as int).filter(label_filter()),
        decreases listing@.len() - i,
    {
        assert(all.take(i + 1).drop_last() =~= all.take(i as int));
        let ghost before = views(r@);
        let keep = is_label_file(listing[i].as_str());
        if keep {
            r.push(listing[i].clone());
            assert(views(r@) =~= before.push(all[i as int]));
        }
        proof {
            reveal(Seq::filter);
            let t = all.take(i + 1);
            assert(t.last() == all[i as int]);
            assert(label_filter()(t.last()) == keep);
            assert(t.filter(label_filter()) == if keep {
                t.drop_last().filter(label_filter()).push(t.last())
            } else {
                t.drop_last().filter(label_filter())
            });
        }
        i = i + 1;
    }
    assert(all.take(listing@.len() as int) =~= all);
    r
}

/// Every name that a filter kept and sorting ordered satisfies the filter.
proof fn lemma_sorted_filter(s: Seq<Seq<char>>, pred: spec_fn(Seq<char>) -> bool, k: int)
    requires
        0 <= k < sorted_names(s.filter(pred)).len(),
    ensures
        pred(sorted_names(s.filter(pred))[k]),
{
    broadcast use vstd::seq_lib::group_filter_ensures;
    crate::order::lemma_name_order_total();
    let f = s.filter(pred);
    f.lemma_sort_by_ensures(crate::order::name_order());
    let x = sorted_names(f)[k];
    assert(sorted_names(f).contains(x));
    if !f.contains(x) {
        assert(false);
    }
    let j = choose|j: int| 0 <= j < f.len() && f[j] == x;
    assert(pred(f[j]));
}

/// Whether a planned move already goes to `t`.
fn has_target(p: &Vec<Rename>, t: &String) -> (r: bool)
    ensures
        r == targets(rename_views(p@)).contains(t@),
{
    let mut i: usize = 0;
    while i < p.len()
        invariant
            i <= p@.len(),
            forall|j: int| 0 <= j < i ==> #[trigger] p@[j].to@ != t@,
        decreases p@.len() - i,
    {
        if p[i].to == *t {
            assert(targets(rename_views(p@))[i as int] == t@);
            return true;
        }
        i = i + 1;
    }
    assert forall|j: int| 0 <= j < p@.len() implies #[trigger] targets(rename_views(p@))[j] != t@ by {
        assert(targets(rename_views(p@))[j] == p@[j].to@);
    }
    false
}

/// Plans the renames of the images of a folder, given the names it lists: images are taken
/// in name order and the one at position `i` becomes `img_` + the zero-padded index `i + 1`,
/// with its own extension. Also gives, for each image, the annotation name to look for and
/// the annotation's new name. A destination planned twice is refused; with sequential indices
/// this never happens.
pub fn plan_image_renames(listing: &Vec<String>) -> (r: Result<(Vec<Rename>, LabelNameMap), PlanError>)
    ensures
        r matches Ok((p, m)) && rename_views(p@) == image_plan(image_files(views(listing@)))
            && m.wf() && m@ == label_name_map(image_files(views(listing@))),
{
    let imgs = sort_names(keep_images(listing));
    let ghost files = image_files(views(listing@));
    assert(views(imgs@) == files);
    let mut plan: Vec<Rename> = Vec::new();
    let mut map = LabelNameMap::new();
    let mut i: usize = 0;
    assert(files.take(0) =~= Seq::<Seq<char>>::empty());
    assert(rename_views(plan@) =~= image_plan(files.take(0)));
    while i < imgs.len()
        invariant
            i <= imgs@.len(),
            files == views(imgs@),
            files == image_files(views(listing@)),
            rename_views(plan@) == image_plan(files.take(i as int)),
            map.wf(),
            map@ == label_name_map(files.take(i as int)),
        decreases imgs@.len() - i,
    {
        let name = &imgs[i];
        assert(name@ == files[i as int]);
        proof {
            lemma_sorted_filter(views(listing@), image_filter(), i as int);
        }
        let ext = extension(name.as_str()).unwrap();
        let target = image_target_name(i + 1, ext);
        if has_target(&plan, &target) {
            proof {
                let j = choose|j: int|
                    0 <= j < plan@.len() && #[trigger] targets(rename_views(plan@))[j] == target@;
                assert(targets(rename_views(plan@))[j] == image_plan(files.take(i as int))[j].1);
                crate::index::lemma_image_target_injective(
                    (j + 1) as nat,
                    extension_of(files[j]),
                    (i + 1) as nat,
                    extension_of(files[i as int]),
                );
            }
            return Err(PlanError::DuplicateTarget(target));
        }
        let key = label_key(name.as_str());
        let new_label = label_target_name(i + 1);
        plan.push(Rename { from: name.clone(), to: target });
        map.insert(key, new_label);
        proof {
            assert(files.take(i + 1).drop_last() =~= files.take(i as int));
            let np = image_plan(files.take(i + 1));
            assert forall|j: int| 0 <= j < i + 1 implies #[trigger] rename_views(plan@)[j] == np[j] by {
                if j < i {
                    assert(rename_views(plan@)[j] == image_plan(files.take(i as int))[j]);
                } else {
                    assert(rename_views(plan@)[j] == (name@, target@));
                }
            }
            assert(rename_views(plan@) =~= np);
        }
        i = i + 1;
    }
    assert(files.take(imgs@.len() as int) =~= files);
    Ok((plan, map))
}

/// The annotation files that the map knows, in order, each with its new name.
pub open spec fn label_plan(lbls: Seq<Seq<char>>, m: Map<Seq<char>, Seq<char>>) -> Seq<
    (Seq<char>, Seq<char>),
>
    decreases lbls.len(),
{
    if lbls.len() == 0 {
        Seq::empty()
    } else {
        let prev = label_plan(lbls.drop_last(), m);
        if m.contains_key(lbls.last()) {
            prev.push((lbls.last(), m[lbls.last()]))
        } else {
            prev
        }
    }
}

pub open spec fn orphan_filter(m: Map<Seq<char>, Seq<char>>) -> spec_fn(Seq<char>) -> bool {
    |l: Seq<char>| !m.contains_key(l)
}

/// The annotation files that the map does not know: they stay as they are.
pub open spec fn orphan_labels(lbls: Seq<Seq<char>>, m: Map<Seq<char>, Seq<char>>) -> Seq<
    Seq<char>,
> {
    lbls.filter(orphan_filter(m))
}

/// The moves planned for the annotation files of a folder, and those left out.
#[derive(Debug)]
pub struct LabelPlan {
    pub renames: Vec<Rename>,
    pub orphans: Vec<String>,
}

proof fn lemma_label_plan_prefix(s: Seq<Seq<char>>, m: Map<Seq<char>, Seq<char>>, i: int)
    requires
        0 <= i <= s.len(),
    ensures
        label_plan(s.take(i), m).is_prefix_of(label_plan(s, m)),
    decreases s.len(),
{
    if i == s.len() {
        assert(s.take(i) =~= s);
        assert(label_plan(s, m).is_prefix_of(label_plan(s, m)));
    } else {
        assert(s.drop_last().take(i) =~= s.take(i));
        lemma_label_plan_prefix(s.drop_last(), m, i);
        let a = label_plan(s.take(i), m);
        let b = label_plan(s.drop_last(), m);
        let c = label_plan(s, m);
        assert forall|k: int| 0 <= k < a.len() implies #[trigger] a[k] == c[k] by {
            assert(a[k] == b[k]);
        }
    }
}

/// Plans the renames of the annotation files of a folder, given the names it lists and the
/// map that planning its images gave: annotation files are taken in name order, and each one
/// the map knows is to get the new name it maps to. The others are reported back and left as
/// they are. A destination planned twice is refused.
pub fn plan_label_renames(listing: &Vec<String>, map: &LabelNameMap) -> (r: Result<
    LabelPlan,
    PlanError,
>)
    requires
        map.wf(),
    ensures
        r is Ok <==> targets(label_plan(label_files(views(listing@)), map@)).no_duplicates(),
        r matches Ok(lp) ==> rename_views(lp.renames@) == label_plan(
            label_files(views(listing@)),
            map@,
        ) && views(lp.orphans@) == orphan_labels(label_files(views(listing@)), map@),
        r matches Err(PlanError::DuplicateTarget(t)) ==> exists|a: int, b: int|
            0 <= a < b < targets(label_plan(label_files(views(listing@)), map@)).len()
                && #[trigger] targets(label_plan(label_files(views(listing@)), map@))[a] == t@
                && #[trigger] targets(label_plan(label_files(views(listing@)), map@))[b] == t@,
{
    let lbls = sort_names(keep_labels(listing));
    let ghost files = label_files(views(listing@));
    let ghost m = map@;
    let mut plan: Vec<Rename> = Vec::new();
    let mut orphans: Vec<String> = Vec::new();
    let mut i: usize = 0;
    assert(files.take(0) =~= Seq::<Seq<char>>::empty());
    assert(rename_views(plan@) =~= Seq::<(Seq<char>, Seq<char>)>::empty());
    assert(views(orphans@) =~= Seq::<Seq<char>>::empty());
    while i < lbls.len()
        invariant
            i <= lbls@.len(),
            files == views(lbls@),
            files == label_files(views(listing@)),
            m == map@,
            map.wf(),
            rename_views(plan@) == label_plan(files.take(i as int), m),
            targets(rename_views(plan@)).no_duplicates(),
            views(orphans@) == files.take(i as int).filter(orphan_filter(m)),
        decreases lbls@.len() - i,
    {
        let name = &lbls[i];
        assert(name@ == files[i as int]);
        let ghost t1 = files.take(i + 1);
        assert(t1.drop_last() =~= files.take(i as int));
        assert(t1.last() == name@);
        let ghost before_orphans = views(orphans@);
        match map.get(name.as_str()) {
            Some(new_name) => {
                let target = new_name.clone();
                if has_target(&plan, &target) {
                    proof {
                        let tp = targets(rename_views(plan@));
                        let a = choose|a: int| 0 <= a < tp.len() && #[trigger] tp[a] == target@;
                        let full = label_plan(files, m);
                        lemma_label_plan_prefix(files, m, i + 1);
                        let p1 = label_plan(t1, m);
                        assert(p1 == rename_views(plan@).push((name@, target@)));
                        assert(targets(full)[a] == p1[a].1);
                        assert(targets(full)[tp.len() as int] == p1[tp.len() as int].1);
                        assert(targets(full)[a] == target@);
                        assert(targets(full)[tp.len() as int] == target@);
                    }
                    return Err(PlanError::DuplicateTarget(target));
                }
                let ghost before = rename_views(plan@);
                plan.push(Rename { from: name.clone(), to: target });
                proof {
                    assert(rename_views(plan@) =~= before.push((name@, target@)));
                    let tb = targets(before);
                    assert(targets(rename_views(plan@)) =~= tb.push(target@));
                    assert(!tb.contains(target@));
                }
            },
            None => {
                orphans.push(name.clone());
                assert(views(orphans@) =~= before_orphans.push(name@));
            },
        }
        proof {
            reveal(Seq::filter);
            assert(orphan_filter(m)(t1.last()) == !m.contains_key(name@));
        }
        i = i + 1;
    }
    assert(files.take(lbls@.len() as int) =~= files);
    Ok(LabelPlan { renames: plan, orphans })
}

/// The sources of a plan, in plan order.
pub open spec fn sources(p: Seq<(Seq<char>, Seq<char>)>) -> Seq<Seq<char>> {
    p.map_values(|r: (Seq<char>, Seq<char>)| r.0)
}

/// Whether the annotation file `key` can go with an image, once the moves of `done` are
/// planned: the folder listed it, and no earlier move takes it. A name that an earlier move
/// creates does not count.
pub open spec fn label_available(
    listing: Seq<Seq<char>>,
    done: Seq<(Seq<char>, Seq<char>)>,
    key: Seq<char>,
) -> bool {
    listing.contains(key) && !sources(done).contains(key)
}

/// The moves of a flat folder, planned one image at a time in name order: an image whose
/// annotation file (same stem, `.txt`) was listed and is not yet taken by an earlier image
/// moves with it, both to the next index; any other image stays and takes no index.
pub open spec fn paired_plan(listing: Seq<Seq<char>>, imgs: Seq<Seq<char>>) -> Seq<
    (Seq<char>, Seq<char>),
>
    decreases imgs.len(),
{
    if imgs.len() == 0 {
        Seq::empty()
    } else {
        let prev = paired_plan(listing, imgs.drop_last());
        let n = imgs.last();
        let k = (prev.len() / 2 + 1) as nat;
        if label_available(listing, prev, label_key_of(n)) {
            prev.push((n, image_target(k, extension_of(n)))).push(
                (label_key_of(n), label_target(k)),
            )
        } else {
            prev
        }
    }
}

proof fn lemma_paired_plan_even(listing: Seq<Seq<char>>, imgs: Seq<Seq<char>>)
    ensures
        paired_plan(listing, imgs).len() % 2 == 0,
        paired_plan(listing, imgs).len() <= 2 * imgs.len(),
    decreases imgs.len(),
{
    if imgs.len() > 0 {
        lemma_paired_plan_even(listing, imgs.drop_last());
    }
}

fn lists(listing: &Vec<String>, x: &String) -> (r: bool)
    ensures
        r == views(listing@).contains(x@),
{
    let mut i: usize = 0;
    while i < listing.len()
        invariant
            i <= listing@.len(),
            forall|j: int| 0 <= j < i ==> #[trigger] listing@[j]@ != x@,
        decreases listing@.len() - i,
    {
        if listing[i] == *x {
            assert(views(listing@)[i as int] == x@);
            return true;
        }
        i = i + 1;
    }
    assert forall|j: int| 0 <= j < listing@.len() implies #[trigger] views(listing@)[j] != x@ by {
        assert(views(listing@)[j] == listing@[j]@);
    }
    false
}

fn has_source(p: &Vec<Rename>, x: &String) -> (r: bool)
    ensures
        r == sources(rename_views(p@)).contains(x@),
{
    let mut i: usize = 0;
    while i < p.len()
        invariant
            i <= p@.len(),
            forall|j: int| 0 <= j < i ==> #[trigger] p@[j].from@ != x@,
        decreases p@.len() - i,
    {
        if p[i].from == *x {
            assert(sources(rename_views(p@))[i as int] == x@);
            return true;
        }
        i = i + 1;
    }
    assert forall|j: int| 0 <= j < p@.len() implies #[trigger] sources(rename_views(p@))[j] != x@ by {
        assert(sources(rename_views(p@))[j] == p@[j].from@);
    }
    false
}

/// Whether the annotation file `key` can go with an image once the moves of `done` are
/// planned, in a folder that listed `listing`: it was listed, and no move of `done` takes it.
pub fn is_label_available(listing: &Vec<String>, done: &Vec<Rename>, key: &String) -> (r: bool)
    ensures
        r == label_available(views(listing@), rename_views(done@), key@),
{
    lists(listing, key) && !has_source(done, key)
}

/// Plans the renames of a flat folder, given the names it lists: images are taken in name
/// order; one whose annotation file (same stem, `.txt`) was listed and is not yet taken by an
/// earlier image is renamed with it to the next index, `img_` + the zero-padded index with the image's extension and with
/// `.txt`; one without it is left as it is and takes no index. The moves come in the order in
/// which they are to be made, each image before its annotation.
pub fn plan_paired_renames(listing: &Vec<String>) -> (r: Vec<Rename>)
    ensures
        rename_views(r@) == paired_plan(views(listing@), image_files(views(listing@))),
{
    let imgs = sort_names(keep_images(listing));
    let ghost files = image_files(views(listing@));
    let ghost all = views(listing@);
    let mut plan: Vec<Rename> = Vec::new();
    let mut count: usize = 0;
    let mut i: usize = 0;
    assert(files.take(0) =~= Seq::<Seq<char>>::empty());
    assert(rename_views(plan@) =~= Seq::<(Seq<char>, Seq<char>)>::empty());
    while i < imgs.len()
        invariant
            i <= imgs@.len(),
            files == views(imgs@),
            files == image_files(views(listing@)),
            all == views(listing@),
            rename_views(plan@) == paired_plan(all, files.take(i as int)),
            count as nat == plan@.len() / 2,
            count <= i,
        decreases imgs@.len() - i,
    {
        let name = &imgs[i];
        assert(name@ == files[i as int]);
        proof {
            lemma_sorted_filter(all, image_filter(), i as int);
            lemma_paired_plan_even(all, files.take(i as int));
        }
        let ghost t1 = files.take(i + 1);
        assert(t1.drop_last() =~= files.take(i as int));
        assert(t1.last() == name@);
        let key = label_key(name.as_str());
        if is_label_available(listing, &plan, &key) {
            let ext = extension(name.as_str()).unwrap();
            let img_target = image_target_name(count + 1, ext);
            let lbl_target = label_target_name(count + 1);
            let ghost before = rename_views(plan@);
            plan.push(Rename { from: name.clone(), to: img_target });
            plan.push(Rename { from: key, to: lbl_target });
            assert(rename_views(plan@) =~= before.push((name@, image_target((count + 1) as nat, extension_of(name@)))).push(
                (label_key_of(name@), label_target((count + 1) as nat)),
            ));
            count = count + 1;
        }
        i = i + 1;
    }
    assert(files.take(imgs@.len() as int) =~= files);
    plan
}

} // verus!
