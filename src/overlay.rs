use vstd::prelude::*;
use crate::mount_tree::{MountNode, MountTree, covering, nested_mounts, as_ints, lemma_deepest_reached};

verus! {

/// `errno` value for a path that does not exist.
pub const ENOENT: i32 = 2;

/// `errno` value for a path whose prefix is not a directory.
pub const ENOTDIR: i32 = 20;

/// What a metadata lookup of a path found.
#[derive(PartialEq, Eq, Structural, Debug, Clone, Copy)]
pub enum Probe {
    Dir,
    NotDir,
    Absent,
    Failed(i32),
}

/// What to do at one mount point while composing the overlay.
#[derive(Debug)]
pub enum MountAction {
    /// The mount point is gone after an earlier step: go on with the next one.
    Skip,
    /// A lookup failed with this `errno`: abort the whole operation.
    Fail(i32),
    /// The destination has no override at all: stop, nothing is mounted.
    NoModules,
    /// Bind-mount `source` onto `target`.
    Bind { source: Vec<u8>, target: Vec<u8> },
    /// Mount a read-only overlay on `target` with mount data `options`.
    Overlay { target: Vec<u8>, options: Vec<u8> },
    /// Overrides match but one side is not a directory: leave the mount as it is.
    Keep,
}

/// The probe result for a failed lookup: not-found and not-a-directory mean
/// the path is absent, any other error is a failure.
pub fn probe_from_errno(errno: i32) -> (r: Probe)
    ensures
        r == (if errno == ENOENT || errno == ENOTDIR {
            Probe::Absent
        } else {
            Probe::Failed(errno)
        }),
{
    if errno == ENOENT || errno == ENOTDIR {
        Probe::Absent
    } else {
        Probe::Failed(errno)
    }
}

/// For each override tree root, the path of `mount_point` re-rooted under it.
pub fn candidate_paths(lower_dirs: &Vec<Vec<u8>>, mount_point: &Vec<u8>) -> (r: Vec<Vec<u8>>)
    ensures
        r@.len() == lower_dirs@.len(),
        forall|i: int| 0 <= i < r@.len() ==> #[trigger] r@[i]@ == lower_dirs@[i]@ + mount_point@,
{
    let mut r: Vec<Vec<u8>> = Vec::new();
    let mut i: usize = 0;
    while i < lower_dirs.len()
        invariant
            i <= lower_dirs@.len(),
            r@.len() == i,
            forall|x: int| 0 <= x < i ==> #[trigger] r@[x]@ == lower_dirs@[x]@ + mount_point@,
        decreases lower_dirs.len() - i,
    {
        let mut c: Vec<u8> = lower_dirs[i].clone();
        let mut k: usize = 0;
        while k < mount_point.len()
            invariant
                i < lower_dirs@.len(),
                k <= mount_point@.len(),
                c@ == lower_dirs@[i as int]@ + mount_point@.subrange(0, k as int),
            decreases mount_point.len() - k,
        {
            c.push(mount_point[k]);
            k = k + 1;
            assert(c@ =~= lower_dirs@[i as int]@ + mount_point@.subrange(0, k as int));
        }
        assert(mount_point@.subrange(0, mount_point@.len() as int) =~= mount_point@);
        r.push(c);
        i = i + 1;
    }
    r
}

/// `probes[i]` is the first failed lookup, with `errno` value `e`.
pub open spec fn fails_first_at(probes: Seq<Probe>, i: int, e: i32) -> bool {
    &&& 0 <= i < probes.len()
    &&& probes[i] == Probe::Failed(e)
    &&& forall|j: int| 0 <= j < i ==> !(probes[j] is Failed)
}

/// The first failed lookup among `probes` has `errno` value `e`.
pub open spec fn fails_with(probes: Seq<Probe>, e: i32) -> bool {
    exists|i: int| fails_first_at(probes, i, e)
}

/// The `errno` value of the first failed lookup among `probes`, if any.
pub open spec fn probe_failure(probes: Seq<Probe>) -> Option<i32> {
    if exists|e: i32| fails_with(probes, e) {
        Some(choose|e: i32| fails_with(probes, e))
    } else {
        None
    }
}

/// The candidates that become lower layers, in the given order: directories,
/// and other existing files too below the destination itself.
pub open spec fn matched_layers(first: bool, cands: Seq<Seq<u8>>, probes: Seq<Probe>) -> Seq<Seq<u8>>
    decreases cands.len(),
{
    if cands.len() == 0 || probes.len() == 0 {
        Seq::empty()
    } else {
        let rest = matched_layers(first, cands.drop_last(), probes.drop_last());
        match probes.last() {
            Probe::Dir => rest.push(cands.last()),
            Probe::NotDir => if first {
                rest
            } else {
                rest.push(cands.last())
            },
            _ => rest,
        }
    }
}

/// The layers joined by `:`.
pub open spec fn join_layers(layers: Seq<Seq<u8>>) -> Seq<u8>
    decreases layers.len(),
{
    if layers.len() == 0 {
        Seq::empty()
    } else if layers.len() == 1 {
        layers[0]
    } else {
        join_layers(layers.drop_last()) + seq![58u8] + layers.last()
    }
}

/// The text `lowerdir=`.
pub open spec fn lowerdir_key() -> Seq<u8> {
    seq![108u8, 111u8, 119u8, 101u8, 114u8, 100u8, 105u8, 114u8, 61u8]
}

/// Overlay mount data: the matched layers, highest priority first, then the
/// original content as the lowest layer.
pub open spec fn overlay_options(layers: Seq<Seq<u8>>, src: Seq<u8>) -> Seq<u8> {
    lowerdir_key() + join_layers(layers.push(src))
}


/// The plain values of a list of paths.
pub open spec fn views(v: Seq<Vec<u8>>) -> Seq<Seq<u8>> {
    v.map_values(|x: Vec<u8>| x@)
}

/// A `MountAction` with its paths as plain values.
pub enum ActionView {
    Skip,
    Fail(i32),
    NoModules,
    Bind(Seq<u8>, Seq<u8>),
    Overlay(Seq<u8>, Seq<u8>),
    Keep,
}

impl View for MountAction {
    type V = ActionView;

    open spec fn view(&self) -> ActionView {
        match self {
            MountAction::Skip => ActionView::Skip,
            MountAction::Fail(e) => ActionView::Fail(*e),
            MountAction::NoModules => ActionView::NoModules,
            MountAction::Bind { source, target } => ActionView::Bind(source@, target@),
            MountAction::Overlay { target, options } => ActionView::Overlay(target@, options@),
            MountAction::Keep => ActionView::Keep,
        }
    }
}

/// The action for one mount point. `first` marks the destination itself,
/// `src` is where its original content is reached, `stock_is_dir` whether
/// that content is a directory, `target` what a lookup of the mount point now
/// finds, and `probes[i]` what a lookup of `cands[i]` found.
pub open spec fn expected_action(
    first: bool,
    mount_point: Seq<u8>,
    src: Seq<u8>,
    stock_is_dir: bool,
    target: Probe,
    cands: Seq<Seq<u8>>,
    probes: Seq<Probe>,
) -> ActionView {
    match target {
        Probe::Absent => ActionView::Skip,
        Probe::Failed(e) => ActionView::Fail(e),
        _ => match probe_failure(probes) {
            Some(e) => ActionView::Fail(e),
            None => {
                let layers = matched_layers(first, cands, probes);
                if layers.len() == 0 {
                    if first {
                        ActionView::NoModules
                    } else {
                        ActionView::Bind(src, mount_point)
                    }
                } else if stock_is_dir && target == Probe::Dir {
                    ActionView::Overlay(mount_point, overlay_options(layers, src))
                } else {
                    ActionView::Keep
                }
            },
        },
    }
}

/// The lower layers that the probed candidates give, or the `errno` value of
/// the first failed lookup.
fn collect_layers(first: bool, cands: &Vec<Vec<u8>>, probes: &Vec<Probe>) -> (r: Result<Vec<Vec<u8>>, i32>)
    requires
        cands@.len() == probes@.len(),
    ensures
        match r {
            Ok(l) => probe_failure(probes@) is None && views(l@) == matched_layers(first, views(cands@), probes@),
            Err(e) => probe_failure(probes@) == Some(e),
        },
{
    let n = cands.len();
    let mut layers: Vec<Vec<u8>> = Vec::new();
    let mut i: usize = 0;
    while i < n
        invariant
            n == cands@.len(),
            n == probes@.len(),
            i <= n,
            forall|j: int| 0 <= j < i ==> !(probes@[j] is Failed),
            views(layers@) == matched_layers(first, views(cands@).subrange(0, i as int), probes@.subrange(0, i as int)),
        decreases n - i,
    {
        let ghost c0 = views(cands@).subrange(0, i as int);
        let ghost p0 = probes@.subrange(0, i as int);
        let ghost c1 = views(cands@).subrange(0, i + 1);
        let ghost p1 = probes@.subrange(0, i + 1);
        assert(c1.drop_last() =~= c0);
        assert(p1.drop_last() =~= p0);
        let ghost l0 = layers@;
        match probes[i] {
            Probe::Failed(e) => {
                assert(fails_first_at(probes@, i as int, e));
                assert(fails_with(probes@, e));
                assert forall|e2: i32| fails_with(probes@, e2) implies e2 == e by {
                    let x = choose|x: int| fails_first_at(probes@, x, e2);
                    if x < i {
                    } else if x > i {
                    }
                }
                return Err(e);
            },
            Probe::Dir => {
                layers.push(cands[i].clone());
                assert(views(layers@) =~= views(l0).push(views(cands@)[i as int]));
            },
            Probe::NotDir => {
                if !first {
                    layers.push(cands[i].clone());
                    assert(views(layers@) =~= views(l0).push(views(cands@)[i as int]));
                }
            },
            Probe::Absent => {},
        }
        i = i + 1;
    }
    assert(views(cands@).subrange(0, n as int) =~= views(cands@));
    assert(probes@.subrange(0, n as int) =~= probes@);
    assert forall|e: i32| !fails_with(probes@, e) by {
        if fails_with(probes@, e) {
            let x = choose|x: int| fails_first_at(probes@, x, e);
        }
    }
    Ok(layers)
}

/// Appends a `:` (unless `r` holds no layer yet) and then `part`.
fn append_layer(r: &mut Vec<u8>, sep: bool, part: &Vec<u8>)
    ensures
        final(r)@ == (if sep { old(r)@.push(58u8) } else { old(r)@ }) + part@,
{
    if sep {
        r.push(58u8);
    }
    let ghost r0 = r@;
    let mut k: usize = 0;
    while k < part.len()
        invariant
            k <= part@.len(),
            r@ == r0 + part@.subrange(0, k as int),
        decreases part.len() - k,
    {
        r.push(part[k]);
        k = k + 1;
        assert(r@ =~= r0 + part@.subrange(0, k as int));
    }
    assert(part@.subrange(0, part@.len() as int) =~= part@);
}

proof fn lemma_join_step(all: Seq<Seq<u8>>, i: int)
    requires
        0 <= i < all.len(),
    ensures
        join_layers(all.subrange(0, i + 1)) == if i == 0 {
            all[0]
        } else {
            join_layers(all.subrange(0, i)) + seq![58u8] + all[i]
        },
{
    assert(all.subrange(0, i + 1).drop_last() =~= all.subrange(0, i));
}

/// The mount data `lowerdir=` followed by `layers` and then `src`, joined by `:`.
pub fn build_options(layers: &Vec<Vec<u8>>, src: &Vec<u8>) -> (r: Vec<u8>)
    ensures
        r@ == overlay_options(views(layers@), src@),
{
    let mut r: Vec<u8> = vec![108u8, 111u8, 119u8, 101u8, 114u8, 100u8, 105u8, 114u8, 61u8];
    assert(r@ =~= lowerdir_key());
    let ghost all = views(layers@).push(src@);
    let n = layers.len();
    let mut i: usize = 0;
    while i < n
        invariant
            n == layers@.len(),
            all == views(layers@).push(src@),
            i <= n,
            r@ == lowerdir_key() + join_layers(all.subrange(0, i as int)),
        decreases n - i,
    {
        assert(layers@[i as int]@ == all[i as int]);
        append_layer(&mut r, i > 0, &layers[i]);
        proof {
            lemma_join_step(all, i as int);
        }
        assert(r@ =~= lowerdir_key() + join_layers(all.subrange(0, i + 1)));
        i = i + 1;
    }
    append_layer(&mut r, n > 0, src);
    proof {
        lemma_join_step(all, n as int);
    }
    assert(all.subrange(0, n + 1) =~= all);
    assert(r@ =~= lowerdir_key() + join_layers(all));
    r
}

/// Decides what to do at one mount point (see `expected_action`).
pub fn decide_mount(
    first: bool,
    mount_point: &Vec<u8>,
    src: &Vec<u8>,
    stock_is_dir: bool,
    target: Probe,
    cands: &Vec<Vec<u8>>,
    probes: &Vec<Probe>,
) -> (r: MountAction)
    requires
        cands@.len() == probes@.len(),
    ensures
        r@ == expected_action(first, mount_point@, src@, stock_is_dir, target, views(cands@), probes@),
{
    match target {
        Probe::Absent => MountAction::Skip,
        Probe::Failed(e) => MountAction::Fail(e),
        _ => match collect_layers(first, cands, probes) {
            Err(e) => MountAction::Fail(e),
            Ok(layers) => {
                if layers.len() == 0 {
                    if first {
                        MountAction::NoModules
                    } else {
                        MountAction::Bind { source: src.clone(), target: mount_point.clone() }
                    }
                } else if stock_is_dir && target == Probe::Dir {
                    let options = build_options(&layers, src);
                    MountAction::Overlay { target: mount_point.clone(), options }
                } else {
                    MountAction::Keep
                }
            },
        },
    }
}


/// The order in which the mounts at and below `dest` are handled: the mount
/// covering `dest` first, then every nested mount before those nested below
/// it. `None` when no mount of the tree covers `dest`.
pub fn mount_plan(tree: &MountTree, dest: &Vec<u8>) -> (r: Option<Vec<usize>>)
    requires
        tree.wf(),
    ensures
        match r {
            Some(v) => exists|m: int|
                covering(*tree, tree.root as int, dest@) == Some(m) && as_ints(v@) == nested_mounts(*tree, m, dest@).reverse(),
            None => covering(*tree, tree.root as int, dest@) is None,
        },
{
    let m = match MountNode::get_mount_for_path(tree, tree.root, dest) {
        Some(m) => m,
        None => return None,
    };
    proof {
        lemma_deepest_reached(*tree, tree.root as int, dest@, 0);
    }
    let mut seq: Vec<usize> = Vec::new();
    MountNode::get_top_mounts_under_path(&mut seq, tree, m, dest);
    assert(as_ints(seq@) =~= nested_mounts(*tree, m as int, dest@));
    let mut out: Vec<usize> = Vec::new();
    let mut i: usize = seq.len();
    while i > 0
        invariant
            i <= seq@.len(),
            out@.len() == seq@.len() - i,
            forall|x: int| 0 <= x < out@.len() ==> out@[x] == seq@[seq@.len() - 1 - x],
        decreases i,
    {
        i = i - 1;
        out.push(seq[i]);
    }
    assert(as_ints(out@) =~= as_ints(seq@).reverse());
    Some(out)
}

} // verus!
