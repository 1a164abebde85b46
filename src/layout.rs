//! The split layout: in each split folder, images in `images/` and annotations in `labels/`.
use vstd::prelude::*;
use crate::order::views;
use crate::plan::{
    image_files, image_plan, label_files, label_name_map, label_plan, orphan_labels,
    plan_image_renames, plan_label_renames, rename_views, targets, LabelPlan, PlanError, Rename,
};

verus! {

/// The moves planned for one split folder.
#[derive(Debug)]
pub struct SplitPlan {
    pub images: Vec<Rename>,
    pub labels: LabelPlan,
}

/// The annotation moves of a split whose `images/` lists `imgs` and `labels/` lists `lbls`.
pub open spec fn split_label_plan(imgs: Seq<Seq<char>>, lbls: Seq<Seq<char>>) -> Seq<
    (Seq<char>, Seq<char>),
> {
    label_plan(label_files(lbls), label_name_map(image_files(imgs)))
}

/// Plans one split folder, given what its `images/` and its `labels/` list: the images are
/// numbered in name order, and each annotation file follows the image whose stem it has.
/// Nothing is planned where two annotation files would get the same new name.
pub fn plan_split(images: &Vec<String>, labels: &Vec<String>) -> (r: Result<SplitPlan, PlanError>)
    ensures
        r is Ok <==> targets(split_label_plan(views(images@), views(labels@))).no_duplicates(),
        r matches Ok(sp) ==> rename_views(sp.images@) == image_plan(image_files(views(images@)))
            && rename_views(sp.labels.renames@) == split_label_plan(views(images@), views(labels@))
            && views(sp.labels.orphans@) == orphan_labels(
            label_files(views(labels@)),
            label_name_map(image_files(views(images@))),
        ),
{
    match plan_image_renames(images) {
        Ok((image_moves, map)) => match plan_label_renames(labels, &map) {
            Ok(lp) => Ok(SplitPlan { images: image_moves, labels: lp }),
            Err(e) => Err(e),
        },
        Err(e) => Err(e),
    }
}

} // verus!
