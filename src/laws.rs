//! What holds of the plans for every input: pairing, order, distinct destinations, orphans.
use vstd::prelude::*;
use crate::index::{image_target, label_target, lemma_image_target_injective, target_stem};
use crate::name::{
    extension_of, has_extension, is_image_extension, is_image_name, is_label_name,
    label_key_of, last_dot, lemma_last_dot, stem_of, txt,
};
use crate::order::{lemma_name_order_total, name_le, name_order, sorted_names};
use crate::layout::split_label_plan;
use crate::plan::{
    image_files, image_filter, image_plan, label_files, label_filter, label_name_map,
    label_plan, orphan_filter, orphan_labels, paired_plan, label_available, sources, targets,
};

verus! {

proof fn lemma_last_dot_append(s: Seq<char>, e: Seq<char>)
    requires
        forall|k: int| 0 <= k < e.len() ==> e[k] != '.',
    ensures
        last_dot(s + e) == last_dot(s),
    decreases e.len(),
{
    if e.len() > 0 {
        assert((s + e).drop_last() =~= s + e.drop_last());
        assert((s + e).last() == e.last());
        lemma_last_dot_append(s, e.drop_last());
    } else {
        assert(s + e =~= s);
    }
}

/// `p`, a dot, then a dot-free `e`: the stem is `p` and the extension is `e`.
proof fn lemma_split_at_dot(p: Seq<char>, e: Seq<char>)
    requires
        forall|k: int| 0 <= k < e.len() ==> e[k] != '.',
    ensures
        last_dot(p + seq!['.'] + e) == p.len(),
        stem_of(p + seq!['.'] + e) == p,
        extension_of(p + seq!['.'] + e) == e,
{
    let q = p + seq!['.'];
    lemma_last_dot_append(q, e);
    assert(q.drop_last() =~= p);
    assert(q + e =~= p + seq!['.'] + e);
    assert((p + seq!['.'] + e).subrange(0, p.len() as int) =~= p);
    assert((p + seq!['.'] + e).subrange(p.len() as int + 1, (p + seq!['.'] + e).len() as int) =~= e);
}

proof fn lemma_txt_has_no_dot()
    ensures
        forall|k: int| 0 <= k < txt().len() ==> txt()[k] != '.',
{
}

/// An image's annotation name is an annotation file name with the image's stem.
pub proof fn lemma_label_key(n: Seq<char>)
    requires
        has_extension(n),
    ensures
        is_label_name(label_key_of(n)),
        stem_of(label_key_of(n)) == stem_of(n),
        !is_image_name(label_key_of(n)),
{
    lemma_txt_has_no_dot();
    lemma_last_dot(n);
    lemma_split_at_dot(stem_of(n), txt());
    assert(stem_of(n).len() == last_dot(n));
}

/// The two new names of an index share the stem `img_` + the padded index.
pub proof fn lemma_target_stems(k: nat, e: Seq<char>)
    requires
        forall|j: int| 0 <= j < e.len() ==> e[j] != '.',
    ensures
        stem_of(image_target(k, e)) == target_stem(k),
        stem_of(label_target(k)) == target_stem(k),
{
    lemma_txt_has_no_dot();
    lemma_split_at_dot(target_stem(k), e);
    lemma_split_at_dot(target_stem(k), txt());
}

proof fn lemma_extension_has_no_dot(n: Seq<char>)
    ensures
        forall|j: int| 0 <= j < extension_of(n).len() ==> extension_of(n)[j] != '.',
{
    lemma_last_dot(n);
    assert forall|j: int| 0 <= j < extension_of(n).len() implies extension_of(n)[j] != '.' by {
        assert(extension_of(n)[j] == n[last_dot(n) + 1 + j]);
    }
}

proof fn lemma_sorted_filter_members(s: Seq<Seq<char>>, pred: spec_fn(Seq<char>) -> bool)
    ensures
        forall|x: Seq<char>| #[trigger] sorted_names(s.filter(pred)).contains(x) <==> (s.contains(x) && pred(x)),
{
    broadcast use vstd::seq_lib::group_filter_ensures;
    broadcast use vstd::seq_lib::group_to_multiset_ensures;
    lemma_name_order_total();
    let f = s.filter(pred);
    f.lemma_sort_by_ensures(name_order());
    assert forall|x: Seq<char>| #[trigger] sorted_names(f).contains(x) <==> (s.contains(x) && pred(x)) by {
        if s.contains(x) && pred(x) {
            let j = choose|j: int| 0 <= j < s.len() && s[j] == x;
            assert(f.contains(s[j]));
            assert(f.to_multiset().count(x) > 0);
            assert(sorted_names(f).to_multiset().count(x) > 0);
        }
        if sorted_names(f).contains(x) {
            assert(f.contains(x));
            s.lemma_filter_contains_rev(pred, x);
            let j = choose|j: int| 0 <= j < f.len() && f[j] == x;
            assert(pred(f[j]));
        }
    }
}

proof fn lemma_image_files_are_images(listing: Seq<Seq<char>>)
    ensures
        forall|i: int| 0 <= i < image_files(listing).len() ==> is_image_name(#[trigger] image_files(listing)[i]),
{
    lemma_sorted_filter_members(listing, image_filter());
    assert forall|i: int| 0 <= i < image_files(listing).len() implies is_image_name(#[trigger] image_files(listing)[i]) by {
        assert(image_files(listing).contains(image_files(listing)[i]));
    }
}

proof fn lemma_map_at(imgs: Seq<Seq<char>>, i: int)
    requires
        0 <= i < imgs.len(),
        forall|a: int, b: int|
            0 <= a < b < imgs.len() ==> label_key_of(#[trigger] imgs[a]) != label_key_of(#[trigger] imgs[b]),
    ensures
        label_name_map(imgs).contains_key(label_key_of(imgs[i])),
        label_name_map(imgs)[label_key_of(imgs[i])] == label_target((i + 1) as nat),
    decreases imgs.len(),
{
    if i < imgs.len() - 1 {
        lemma_map_at(imgs.drop_last(), i);
        assert(label_key_of(imgs[i]) != label_key_of(imgs[imgs.len() - 1]));
    }
}

proof fn lemma_label_plan_has(lbls: Seq<Seq<char>>, m: Map<Seq<char>, Seq<char>>, l: Seq<char>)
    requires
        lbls.contains(l),
        m.contains_key(l),
    ensures
        label_plan(lbls, m).contains((l, m[l])),
    decreases lbls.len(),
{
    let p = label_plan(lbls, m);
    if lbls.last() == l {
        assert(p.last() == (l, m[l]));
    } else {
        let j = choose|j: int| 0 <= j < lbls.len() && lbls[j] == l;
        assert(lbls.drop_last()[j] == l);
        lemma_label_plan_has(lbls.drop_last(), m, l);
        let q = label_plan(lbls.drop_last(), m);
        let k = choose|k: int| 0 <= k < q.len() && q[k] == (l, m[l]);
        assert(p[k] == q[k]);
    }
}

/// Pairing in the split layout: where the images of a split have distinct stems, an image whose
/// annotation file is in `labels/` gets index `i + 1`, and that annotation file is planned to the
/// annotation name of the same index: the two new names share one stem.
pub proof fn law_split_pairing(images: Seq<Seq<char>>, labels: Seq<Seq<char>>, i: int)
    requires
        0 <= i < image_files(images).len(),
        forall|a: int, b: int|
            0 <= a < b < image_files(images).len() ==> label_key_of(#[trigger] image_files(images)[a])
                != label_key_of(#[trigger] image_files(images)[b]),
        labels.contains(label_key_of(image_files(images)[i])),
    ensures
        image_plan(image_files(images))[i] == (
            image_files(images)[i],
            image_target((i + 1) as nat, extension_of(image_files(images)[i])),
        ),
        split_label_plan(images, labels).contains(
            (label_key_of(image_files(images)[i]), label_target((i + 1) as nat)),
        ),
        stem_of(image_target((i + 1) as nat, extension_of(image_files(images)[i]))) == stem_of(
            label_target((i + 1) as nat),
        ),
{
    let imgs = image_files(images);
    let n = imgs[i];
    lemma_image_files_are_images(images);
    assert(is_image_name(n));
    lemma_label_key(n);
    lemma_map_at(imgs, i);
    lemma_sorted_filter_members(labels, label_filter());
    assert(label_filter()(label_key_of(n)));
    assert(label_files(labels).contains(label_key_of(n)));
    lemma_label_plan_has(label_files(labels), label_name_map(imgs), label_key_of(n));
    lemma_extension_has_no_dot(n);
    lemma_target_stems((i + 1) as nat, extension_of(n));
}

/// Index order follows name order: of two images, the one that sorts first gets the smaller
/// index; where the folder lists each name once, it sorts strictly first.
pub proof fn law_index_order(images: Seq<Seq<char>>, i: int, j: int)
    requires
        0 <= i < j < image_files(images).len(),
    ensures
        name_le(image_plan(image_files(images))[i].0, image_plan(image_files(images))[j].0),
        image_plan(image_files(images))[i].1 == image_target(
            (i + 1) as nat,
            extension_of(image_files(images)[i]),
        ),
        image_plan(image_files(images))[j].1 == image_target(
            (j + 1) as nat,
            extension_of(image_files(images)[j]),
        ),
        images.no_duplicates() ==> image_plan(image_files(images))[i].0 != image_plan(
            image_files(images),
        )[j].0,
{
    lemma_name_order_total();
    images.filter(image_filter()).lemma_sort_by_ensures(name_order());
    assert(name_order()(image_files(images)[i], image_files(images)[j]));
    if images.no_duplicates() {
        lemma_filter_no_duplicates(images, image_filter());
        lemma_sorted_no_duplicates(images.filter(image_filter()));
    }
}

/// No two images of a folder are planned to the same new name.
pub proof fn law_image_targets_distinct(images: Seq<Seq<char>>)
    ensures
        targets(image_plan(image_files(images))).no_duplicates(),
{
    let imgs = image_files(images);
    let t = targets(image_plan(imgs));
    assert forall|a: int, b: int| 0 <= a < t.len() && 0 <= b < t.len() && a != b implies t[a] != t[b] by {
        if t[a] == t[b] {
            lemma_image_target_injective(
                (a + 1) as nat,
                extension_of(imgs[a]),
                (b + 1) as nat,
                extension_of(imgs[b]),
            );
        }
    }
}

proof fn lemma_map_values(imgs: Seq<Seq<char>>, k: Seq<char>)
    requires
        label_name_map(imgs).contains_key(k),
    ensures
        exists|j: int|
            0 <= j < imgs.len() && label_key_of(#[trigger] imgs[j]) == k && label_name_map(imgs)[k]
                == label_target((j + 1) as nat),
    decreases imgs.len(),
{
    let n = imgs.len() - 1;
    if label_key_of(imgs[n]) == k {
        assert(label_name_map(imgs)[k] == label_target((n + 1) as nat));
    } else {
        lemma_map_values(imgs.drop_last(), k);
        let j = choose|j: int|
            0 <= j < imgs.drop_last().len() && label_key_of(#[trigger] imgs.drop_last()[j]) == k
                && label_name_map(imgs.drop_last())[k] == label_target((j + 1) as nat);
        assert(imgs[j] == imgs.drop_last()[j]);
    }
}

/// Distinct annotation names map to distinct new names.
proof fn lemma_map_injective(imgs: Seq<Seq<char>>, k1: Seq<char>, k2: Seq<char>)
    requires
        label_name_map(imgs).contains_key(k1),
        label_name_map(imgs).contains_key(k2),
        k1 != k2,
    ensures
        label_name_map(imgs)[k1] != label_name_map(imgs)[k2],
{
    lemma_map_values(imgs, k1);
    lemma_map_values(imgs, k2);
    let j1 = choose|j: int|
        0 <= j < imgs.len() && label_key_of(#[trigger] imgs[j]) == k1 && label_name_map(imgs)[k1]
            == label_target((j + 1) as nat);
    let j2 = choose|j: int|
        0 <= j < imgs.len() && label_key_of(#[trigger] imgs[j]) == k2 && label_name_map(imgs)[k2]
            == label_target((j + 1) as nat);
    if label_name_map(imgs)[k1] == label_name_map(imgs)[k2] {
        lemma_image_target_injective((j1 + 1) as nat, txt(), (j2 + 1) as nat, txt());
    }
}

/// Each planned annotation move takes a known name, from the list, to what the map gives it.
proof fn lemma_label_plan_members(lbls: Seq<Seq<char>>, m: Map<Seq<char>, Seq<char>>)
    ensures
        forall|k: int|
            0 <= k < label_plan(lbls, m).len() ==> lbls.contains(#[trigger] label_plan(lbls, m)[k].0)
                && m.contains_key(label_plan(lbls, m)[k].0) && label_plan(lbls, m)[k].1 == m[label_plan(
                lbls,
                m,
            )[k].0],
    decreases lbls.len(),
{
    if lbls.len() > 0 {
        let d = lbls.drop_last();
        lemma_label_plan_members(d, m);
        let p = label_plan(lbls, m);
        let q = label_plan(d, m);
        assert forall|k: int| 0 <= k < p.len() implies lbls.contains(#[trigger] p[k].0) && m.contains_key(
            p[k].0,
        ) && p[k].1 == m[p[k].0] by {
            if k < q.len() {
                assert(p[k] == q[k]);
                let j = choose|j: int| 0 <= j < d.len() && d[j] == q[k].0;
                assert(lbls[j] == d[j]);
            } else {
                assert(p[k].0 == lbls[lbls.len() - 1]);
            }
        }
    }
}

proof fn lemma_label_plan_sources_distinct(lbls: Seq<Seq<char>>, m: Map<Seq<char>, Seq<char>>)
    requires
        lbls.no_duplicates(),
    ensures
        forall|a: int, b: int|
            0 <= a < b < label_plan(lbls, m).len() ==> #[trigger] label_plan(lbls, m)[a].0
                != #[trigger] label_plan(lbls, m)[b].0,
    decreases lbls.len(),
{
    if lbls.len() > 0 {
        let d = lbls.drop_last();
        assert(d.no_duplicates());
        lemma_label_plan_sources_distinct(d, m);
        lemma_label_plan_members(d, m);
        let p = label_plan(lbls, m);
        let q = label_plan(d, m);
        assert forall|a: int, b: int| 0 <= a < b < p.len() implies #[trigger] p[a].0 != #[trigger] p[b].0 by {
            if b < q.len() {
                assert(p[a] == q[a] && p[b] == q[b]);
            } else {
                assert(p[a] == q[a]);
                assert(d.contains(q[a].0));
                let j = choose|j: int| 0 <= j < d.len() && d[j] == q[a].0;
                assert(lbls[j] == d[j]);
                assert(p[b].0 == lbls[lbls.len() - 1]);
            }
        }
    }
}

proof fn lemma_filter_no_duplicates(s: Seq<Seq<char>>, pred: spec_fn(Seq<char>) -> bool)
    requires
        s.no_duplicates(),
    ensures
        s.filter(pred).no_duplicates(),
    decreases s.len(),
{
    reveal(Seq::filter);
    if s.len() > 0 {
        let d = s.drop_last();
        assert(d.no_duplicates());
        lemma_filter_no_duplicates(d, pred);
        if pred(s.last()) {
            let f = d.filter(pred);
            if f.contains(s.last()) {
                d.lemma_filter_contains_rev(pred, s.last());
                let j = choose|j: int| 0 <= j < d.len() && d[j] == s.last();
                assert(s[j] == s[s.len() - 1]);
            }
            assert(f.push(s.last()).no_duplicates());
        }
    }
}

proof fn lemma_sorted_no_duplicates(s: Seq<Seq<char>>)
    requires
        s.no_duplicates(),
    ensures
        sorted_names(s).no_duplicates(),
{
    lemma_name_order_total();
    s.lemma_sort_by_ensures(name_order());
    s.lemma_multiset_has_no_duplicates();
    sorted_names(s).lemma_multiset_has_no_duplicates_conv();
}

/// No clobbering among annotations: where `labels/` lists each name once, no two annotation
/// files of a split are planned to the same new name, so planning the split succeeds.
pub proof fn law_label_targets_distinct(images: Seq<Seq<char>>, labels: Seq<Seq<char>>)
    requires
        labels.no_duplicates(),
    ensures
        targets(split_label_plan(images, labels)).no_duplicates(),
{
    let m = label_name_map(image_files(images));
    let lbls = label_files(labels);
    lemma_filter_no_duplicates(labels, label_filter());
    lemma_sorted_no_duplicates(labels.filter(label_filter()));
    lemma_label_plan_sources_distinct(lbls, m);
    lemma_label_plan_members(lbls, m);
    let p = label_plan(lbls, m);
    let t = targets(p);
    assert forall|a: int, b: int| 0 <= a < t.len() && 0 <= b < t.len() && a != b implies t[a] != t[b] by {
        if a < b {
            assert(p[a].0 != p[b].0);
        } else {
            assert(p[b].0 != p[a].0);
        }
        lemma_map_injective(image_files(images), p[a].0, p[b].0);
    }
}

/// Orphan annotations in the split layout: an annotation file that no image's stem matches is
/// reported, and no move takes it. Image indices do not depend on `labels/` at all.
pub proof fn law_orphan_label(images: Seq<Seq<char>>, labels: Seq<Seq<char>>, l: Seq<char>)
    requires
        label_files(labels).contains(l),
        !label_name_map(image_files(images)).contains_key(l),
    ensures
        orphan_labels(label_files(labels), label_name_map(image_files(images))).contains(l),
        forall|k: int|
            0 <= k < split_label_plan(images, labels).len() ==> #[trigger] split_label_plan(
                images,
                labels,
            )[k].0 != l,
{
    broadcast use vstd::seq_lib::group_filter_ensures;
    let m = label_name_map(image_files(images));
    let lbls = label_files(labels);
    lemma_label_plan_members(lbls, m);
    let j = choose|j: int| 0 <= j < lbls.len() && lbls[j] == l;
    assert(orphan_filter(m)(lbls[j]));
    assert(lbls.filter(orphan_filter(m)).contains(lbls[j]));
}

/// The image move of the `k`-th pair of a flat-folder plan.
pub open spec fn pair_image(p: Seq<(Seq<char>, Seq<char>)>, k: int) -> (Seq<char>, Seq<char>) {
    p[2 * k]
}

/// The annotation move of the `k`-th pair of a flat-folder plan.
pub open spec fn pair_label(p: Seq<(Seq<char>, Seq<char>)>, k: int) -> (Seq<char>, Seq<char>) {
    p[2 * k + 1]
}

spec fn pair_shape(p: Seq<(Seq<char>, Seq<char>)>, imgs: Seq<Seq<char>>, k: int) -> bool {
    &&& imgs.contains(pair_image(p, k).0)
    &&& is_image_name(pair_image(p, k).0)
    &&& pair_image(p, k).1 == image_target((k + 1) as nat, extension_of(pair_image(p, k).0))
    &&& pair_label(p, k) == (label_key_of(pair_image(p, k).0), label_target((k + 1) as nat))
}

proof fn lemma_paired_structure(listing: Seq<Seq<char>>, imgs: Seq<Seq<char>>)
    requires
        forall|i: int| 0 <= i < imgs.len() ==> is_image_name(#[trigger] imgs[i]),
    ensures
        paired_plan(listing, imgs).len() % 2 == 0,
        forall|k: int|
            #![trigger pair_image(paired_plan(listing, imgs), k)]
            0 <= k < paired_plan(listing, imgs).len() / 2 ==> pair_shape(paired_plan(listing, imgs), imgs, k),
    decreases imgs.len(),
{
    if imgs.len() > 0 {
        let d = imgs.drop_last();
        assert forall|i: int| 0 <= i < d.len() implies is_image_name(#[trigger] d[i]) by {
            assert(d[i] == imgs[i]);
        }
        lemma_paired_structure(listing, d);
        let p = paired_plan(listing, imgs);
        let q = paired_plan(listing, d);
        assert forall|k: int| 0 <= k < p.len() / 2 implies #[trigger] pair_shape(p, imgs, k) by {
            if k < q.len() / 2 {
                assert(pair_image(p, k) == pair_image(q, k));
                assert(pair_label(p, k) == pair_label(q, k));
                assert(d.contains(pair_image(q, k).0));
                let j = choose|j: int| 0 <= j < d.len() && d[j] == pair_image(q, k).0;
                assert(imgs[j] == d[j]);
            } else {
                assert(pair_image(p, k).0 == imgs[imgs.len() - 1]);
                assert(is_image_name(imgs[imgs.len() - 1]));
            }
        }
    }
}

/// Pairing in a flat folder: the `k`-th pair of moves takes an image and its own annotation
/// file (same stem) to the new names of index `k + 1`, which share one stem.
pub proof fn law_flat_pairing(listing: Seq<Seq<char>>, k: int)
    requires
        0 <= k < paired_plan(listing, image_files(listing)).len() / 2,
    ensures
        ({
            let p = paired_plan(listing, image_files(listing));
            &&& pair_label(p, k).0 == label_key_of(pair_image(p, k).0)
            &&& stem_of(pair_label(p, k).0) == stem_of(pair_image(p, k).0)
            &&& pair_image(p, k).1 == image_target((k + 1) as nat, extension_of(pair_image(p, k).0))
            &&& pair_label(p, k).1 == label_target((k + 1) as nat)
            &&& stem_of(pair_image(p, k).1) == target_stem((k + 1) as nat)
            &&& stem_of(pair_label(p, k).1) == target_stem((k + 1) as nat)
        }),
{
    let imgs = image_files(listing);
    lemma_image_files_are_images(listing);
    lemma_paired_structure(listing, imgs);
    let p = paired_plan(listing, imgs);
    let n = pair_image(p, k).0;
    lemma_label_key(n);
    lemma_extension_has_no_dot(n);
    lemma_target_stems((k + 1) as nat, extension_of(n));
}

/// No clobbering in a flat folder: no two moves of the plan have the same destination.
pub proof fn law_flat_targets_distinct(listing: Seq<Seq<char>>)
    ensures
        targets(paired_plan(listing, image_files(listing))).no_duplicates(),
{
    let imgs = image_files(listing);
    lemma_image_files_are_images(listing);
    lemma_paired_structure(listing, imgs);
    let p = paired_plan(listing, imgs);
    let t = targets(p);
    assert forall|a: int, b: int| 0 <= a < t.len() && 0 <= b < t.len() && a != b implies t[a] != t[b] by {
        let ka = a / 2;
        let kb = b / 2;
        assert(a == 2 * ka || a == 2 * ka + 1);
        assert(b == 2 * kb || b == 2 * kb + 1);
        let ea = if a == 2 * ka { extension_of(pair_image(p, ka).0) } else { txt() };
        let eb = if b == 2 * kb { extension_of(pair_image(p, kb).0) } else { txt() };
        assert(pair_shape(p, imgs, ka));
        assert(pair_shape(p, imgs, kb));
        if a == 2 * ka {
            assert(pair_image(p, ka) == p[a]);
        } else {
            assert(pair_label(p, ka) == p[a]);
        }
        if b == 2 * kb {
            assert(pair_image(p, kb) == p[b]);
        } else {
            assert(pair_label(p, kb) == p[b]);
        }
        assert(t[a] == image_target((ka + 1) as nat, ea));
        assert(t[b] == image_target((kb + 1) as nat, eb));
        if t[a] == t[b] {
            lemma_image_target_injective((ka + 1) as nat, ea, (kb + 1) as nat, eb);
            assert(is_image_extension(extension_of(pair_image(p, ka).0)));
            assert(is_image_extension(extension_of(pair_image(p, kb).0)));
            assert(!is_image_extension(txt()));
        }
    }
}

proof fn lemma_paired_remove(listing: Seq<Seq<char>>, imgs: Seq<Seq<char>>, i: int)
    requires
        0 <= i < imgs.len(),
        !label_available(listing, paired_plan(listing, imgs.take(i)), label_key_of(imgs[i])),
    ensures
        paired_plan(listing, imgs.remove(i)) == paired_plan(listing, imgs),
    decreases imgs.len(),
{
    let r = imgs.remove(i);
    if i == imgs.len() - 1 {
        assert(r =~= imgs.drop_last());
        assert(imgs.take(i) =~= imgs.drop_last());
    } else {
        let d = imgs.drop_last();
        assert(r.drop_last() =~= d.remove(i));
        assert(r.last() == imgs.last());
        assert(d.take(i) =~= imgs.take(i));
        assert(d[i] == imgs[i]);
        lemma_paired_remove(listing, d, i);
    }
}

/// An image without an annotation in a flat folder: where its annotation file was not listed,
/// or an earlier image already takes it, the plan is the one made without that image, so it takes no index and later pairs
/// keep consecutive indices; where the folder lists each name once, no move takes that image.
pub proof fn law_flat_unpaired_image(listing: Seq<Seq<char>>, i: int)
    requires
        0 <= i < image_files(listing).len(),
        !label_available(
            listing,
            paired_plan(listing, image_files(listing).take(i)),
            label_key_of(image_files(listing)[i]),
        ),
    ensures
        paired_plan(listing, image_files(listing).remove(i)) == paired_plan(
            listing,
            image_files(listing),
        ),
        listing.no_duplicates() ==> forall|k: int|
            0 <= k < paired_plan(listing, image_files(listing)).len() ==> #[trigger] paired_plan(
                listing,
                image_files(listing),
            )[k].0 != image_files(listing)[i],
{
    let imgs = image_files(listing);
    let n = imgs[i];
    lemma_paired_remove(listing, imgs, i);
    if listing.no_duplicates() {
        lemma_image_files_are_images(listing);
        lemma_filter_no_duplicates(listing, image_filter());
        lemma_sorted_no_duplicates(listing.filter(image_filter()));
        let r = imgs.remove(i);
        assert forall|j: int| 0 <= j < r.len() implies is_image_name(#[trigger] r[j]) by {
            if j < i {
                assert(r[j] == imgs[j]);
            } else {
                assert(r[j] == imgs[j + 1]);
            }
        }
        lemma_paired_structure(listing, r);
        let p = paired_plan(listing, r);
        assert forall|k: int| 0 <= k < p.len() implies #[trigger] p[k].0 != n by {
            let h = k / 2;
            if k == 2 * h {
                assert(pair_image(p, h) == p[k]);
                if p[k].0 == n {
                    let j = choose|j: int| 0 <= j < r.len() && r[j] == n;
                    if j < i {
                        assert(imgs[j] == n);
                    } else {
                        assert(imgs[j + 1] == n);
                    }
                }
            } else {
                assert(k == 2 * h + 1);
                assert(pair_label(p, h) == p[k]);
                lemma_label_key(pair_image(p, h).0);
                assert(is_image_name(imgs[i]));
            }
        }
    }
}

proof fn lemma_paired_sources_in_order(listing: Seq<Seq<char>>, imgs: Seq<Seq<char>>, k1: int, k2: int)
    requires
        forall|i: int| 0 <= i < imgs.len() ==> is_image_name(#[trigger] imgs[i]),
        0 <= k1 < k2 < paired_plan(listing, imgs).len() / 2,
    ensures
        exists|j1: int, j2: int|
            0 <= j1 < j2 < imgs.len() && #[trigger] imgs[j1] == pair_image(paired_plan(listing, imgs), k1).0
                && #[trigger] imgs[j2] == pair_image(paired_plan(listing, imgs), k2).0,
    decreases imgs.len(),
{
    let d = imgs.drop_last();
    assert forall|i: int| 0 <= i < d.len() implies is_image_name(#[trigger] d[i]) by {
        assert(d[i] == imgs[i]);
    }
    lemma_paired_structure(listing, d);
    let p = paired_plan(listing, imgs);
    let q = paired_plan(listing, d);
    assert(pair_image(p, k1) == pair_image(q, k1));
    if k2 < q.len() / 2 {
        lemma_paired_sources_in_order(listing, d, k1, k2);
        assert(pair_image(p, k2) == pair_image(q, k2));
        let (j1, j2) = choose|j1: int, j2: int|
            0 <= j1 < j2 < d.len() && #[trigger] d[j1] == pair_image(q, k1).0 && #[trigger] d[j2]
                == pair_image(q, k2).0;
        assert(imgs[j1] == d[j1] && imgs[j2] == d[j2]);
    } else {
        assert(d.contains(pair_image(q, k1).0));
        let j1 = choose|j1: int| 0 <= j1 < d.len() && d[j1] == pair_image(q, k1).0;
        assert(imgs[j1] == d[j1]);
        assert(pair_image(p, k2).0 == imgs[imgs.len() - 1]);
    }
}

/// Index order follows name order in a flat folder too: of two pairs, the one with the smaller
/// index moves the image that sorts first.
pub proof fn law_flat_index_order(listing: Seq<Seq<char>>, k1: int, k2: int)
    requires
        0 <= k1 < k2 < paired_plan(listing, image_files(listing)).len() / 2,
    ensures
        name_le(
            pair_image(paired_plan(listing, image_files(listing)), k1).0,
            pair_image(paired_plan(listing, image_files(listing)), k2).0,
        ),
{
    let imgs = image_files(listing);
    lemma_image_files_are_images(listing);
    lemma_paired_sources_in_order(listing, imgs, k1, k2);
    lemma_name_order_total();
    listing.filter(image_filter()).lemma_sort_by_ensures(name_order());
    let p = paired_plan(listing, imgs);
    let (j1, j2) = choose|j1: int, j2: int|
        0 <= j1 < j2 < imgs.len() && #[trigger] imgs[j1] == pair_image(p, k1).0 && #[trigger] imgs[j2]
            == pair_image(p, k2).0;
    assert(name_order()(imgs[j1], imgs[j2]));
}

proof fn lemma_paired_prefix(listing: Seq<Seq<char>>, imgs: Seq<Seq<char>>, i: int)
    requires
        0 <= i <= imgs.len(),
    ensures
        paired_plan(listing, imgs.take(i)).is_prefix_of(paired_plan(listing, imgs)),
    decreases imgs.len(),
{
    if i == imgs.len() {
        assert(imgs.take(i) =~= imgs);
        assert(paired_plan(listing, imgs).is_prefix_of(paired_plan(listing, imgs)));
    } else {
        assert(imgs.drop_last().take(i) =~= imgs.take(i));
        lemma_paired_prefix(listing, imgs.drop_last(), i);
        let a = paired_plan(listing, imgs.take(i));
        let b = paired_plan(listing, imgs.drop_last());
        let c = paired_plan(listing, imgs);
        assert forall|k: int| 0 <= k < a.len() implies #[trigger] a[k] == c[k] by {
            assert(a[k] == b[k]);
        }
    }
}

/// Pairing in a flat folder, from the listing: an image whose annotation file (same stem,
/// `.txt`) was listed, and whose stem no image before it in name order has, is moved together
/// with that annotation file, both to the same index.
pub proof fn law_flat_listed_pair(listing: Seq<Seq<char>>, i: int)
    requires
        0 <= i < image_files(listing).len(),
        listing.contains(label_key_of(image_files(listing)[i])),
        forall|j: int|
            0 <= j < i ==> label_key_of(#[trigger] image_files(listing)[j]) != label_key_of(
                image_files(listing)[i],
            ),
    ensures
        exists|k: int|
            0 <= k < paired_plan(listing, image_files(listing)).len() / 2
                && #[trigger] pair_image(paired_plan(listing, image_files(listing)), k) == (
                image_files(listing)[i],
                image_target((k + 1) as nat, extension_of(image_files(listing)[i])),
            ) && pair_label(paired_plan(listing, image_files(listing)), k) == (
                label_key_of(image_files(listing)[i]),
                label_target((k + 1) as nat),
            ),
{
    let imgs = image_files(listing);
    let n = imgs[i];
    let key = label_key_of(n);
    lemma_image_files_are_images(listing);
    lemma_label_key(n);
    let before = imgs.take(i);
    assert forall|j: int| 0 <= j < before.len() implies is_image_name(#[trigger] before[j]) by {
        assert(before[j] == imgs[j]);
    }
    lemma_paired_structure(listing, before);
    let prev = paired_plan(listing, before);
    if sources(prev).contains(key) {
        let x = choose|x: int| 0 <= x < sources(prev).len() && sources(prev)[x] == key;
        let h = x / 2;
        assert(pair_shape(prev, before, h));
        if x == 2 * h {
            assert(pair_image(prev, h) == prev[x]);
        } else {
            assert(pair_label(prev, h) == prev[x]);
            let m = pair_image(prev, h).0;
            let j = choose|j: int| 0 <= j < before.len() && before[j] == m;
            assert(imgs[j] == before[j]);
        }
    }
    let t = imgs.take(i + 1);
    assert(t.drop_last() =~= before);
    assert(t.last() == n);
    let k: int = (prev.len() / 2) as int;
    let p1 = paired_plan(listing, t);
    assert(p1 == prev.push((n, image_target((k + 1) as nat, extension_of(n)))).push(
        (key, label_target((k + 1) as nat)),
    ));
    lemma_paired_prefix(listing, imgs, i + 1);
    let p = paired_plan(listing, imgs);
    assert(p[2 * k] == p1[2 * k]);
    assert(p[2 * k + 1] == p1[2 * k + 1]);
    assert(pair_image(p, k) == p[2 * k]);
    assert(pair_label(p, k) == p[2 * k + 1]);
}

proof fn lemma_map_domain(imgs: Seq<Seq<char>>, k: Seq<char>)
    ensures
        label_name_map(imgs).contains_key(k) <==> exists|j: int|
            0 <= j < imgs.len() && label_key_of(#[trigger] imgs[j]) == k,
    decreases imgs.len(),
{
    if imgs.len() > 0 {
        let d = imgs.drop_last();
        lemma_map_domain(d, k);
        if exists|j: int| 0 <= j < d.len() && label_key_of(#[trigger] d[j]) == k {
            let j = choose|j: int| 0 <= j < d.len() && label_key_of(#[trigger] d[j]) == k;
            assert(imgs[j] == d[j]);
        }
        if exists|j: int| 0 <= j < imgs.len() && label_key_of(#[trigger] imgs[j]) == k {
            let j = choose|j: int| 0 <= j < imgs.len() && label_key_of(#[trigger] imgs[j]) == k;
            if j < d.len() {
                assert(d[j] == imgs[j]);
            }
        }
    }
}

proof fn lemma_map_size(imgs: Seq<Seq<char>>)
    requires
        forall|a: int, b: int|
            0 <= a < b < imgs.len() ==> label_key_of(#[trigger] imgs[a]) != label_key_of(#[trigger] imgs[b]),
    ensures
        label_name_map(imgs).dom().finite(),
        label_name_map(imgs).dom().len() == imgs.len(),
    decreases imgs.len(),
{
    if imgs.len() > 0 {
        let d = imgs.drop_last();
        assert forall|a: int, b: int| 0 <= a < b < d.len() implies label_key_of(#[trigger] d[a])
            != label_key_of(#[trigger] d[b]) by {
            assert(d[a] == imgs[a] && d[b] == imgs[b]);
        }
        lemma_map_size(d);
        let k = label_key_of(imgs.last());
        lemma_map_domain(d, k);
        if label_name_map(d).contains_key(k) {
            let j = choose|j: int| 0 <= j < d.len() && label_key_of(#[trigger] d[j]) == k;
            assert(d[j] == imgs[j]);
        }
        assert(label_name_map(imgs).dom() =~= label_name_map(d).dom().insert(k));
    }
}

/// The map that planning images gives: its keys are exactly the annotation names of the
/// images; each value is the annotation target of an index in the plan; distinct keys have
/// distinct values; and where the images have distinct stems it holds one key per image.
pub proof fn law_label_name_map(images: Seq<Seq<char>>, k1: Seq<char>, k2: Seq<char>)
    ensures
        label_name_map(image_files(images)).contains_key(k1) <==> exists|j: int|
            0 <= j < image_files(images).len() && label_key_of(#[trigger] image_files(images)[j])
                == k1,
        label_name_map(image_files(images)).contains_key(k1) ==> exists|j: int|
            0 <= j < image_files(images).len() && label_key_of(#[trigger] image_files(images)[j])
                == k1 && label_name_map(image_files(images))[k1] == label_target((j + 1) as nat),
        label_name_map(image_files(images)).contains_key(k1) && label_name_map(
            image_files(images),
        ).contains_key(k2) && k1 != k2 ==> label_name_map(image_files(images))[k1]
            != label_name_map(image_files(images))[k2],
        (forall|a: int, b: int|
            0 <= a < b < image_files(images).len() ==> label_key_of(#[trigger] image_files(images)[a])
                != label_key_of(#[trigger] image_files(images)[b])) ==> label_name_map(
            image_files(images),
        ).dom().len() == image_files(images).len(),
{
    let imgs = image_files(images);
    lemma_map_domain(imgs, k1);
    if label_name_map(imgs).contains_key(k1) {
        lemma_map_values(imgs, k1);
        if label_name_map(imgs).contains_key(k2) && k1 != k2 {
            lemma_map_injective(imgs, k1, k2);
        }
    }
    if forall|a: int, b: int|
        0 <= a < b < imgs.len() ==> label_key_of(#[trigger] imgs[a]) != label_key_of(#[trigger] imgs[b]) {
        lemma_map_size(imgs);
    }
}

proof fn lemma_label_counts(lbls: Seq<Seq<char>>, m: Map<Seq<char>, Seq<char>>)
    ensures
        label_plan(lbls, m).len() + orphan_labels(lbls, m).len() == lbls.len(),
    decreases lbls.len(),
{
    reveal(Seq::filter);
    if lbls.len() > 0 {
        lemma_label_counts(lbls.drop_last(), m);
    }
}

/// The planned annotation moves of a split and its orphan annotations together number as many
/// as its annotation files.
pub proof fn law_label_counts(images: Seq<Seq<char>>, labels: Seq<Seq<char>>)
    ensures
        split_label_plan(images, labels).len() + orphan_labels(
            label_files(labels),
            label_name_map(image_files(images)),
        ).len() == label_files(labels).len(),
{
    lemma_label_counts(label_files(labels), label_name_map(image_files(images)));
}

} // verus!
