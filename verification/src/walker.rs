//! Bounded-depth expansion of directory entries.
//!
//! The walker owns every decision of the walk: which paths are listed, in
//! what order, and how deep the recursion goes. It performs no I/O itself;
//! the caller runs a loop that reads each path the walker asks for and
//! hands the raw listing back, degraded to an empty listing when the read
//! fails. The walk is depth-first and left-to-right over enumeration
//! order: each entry's listing is requested, then each child directory is
//! fully expanded (depth permitting) before its next sibling.

use vstd::prelude::*;

use crate::files::File;
use crate::files::RawEntry;
use crate::files::kind_tag_spec;
use crate::files::list_directory;
use crate::files::raw_matches;
use crate::files::same_meta;

verus! {

/// Whether an entry's kind tag is the one its own name derives to.
pub open spec fn tag_rule(f: File) -> bool {
    f.file_type@ == kind_tag_spec(f.name@)
}

/// Whether every attached child, at every level below `f`, obeys
/// `tag_rule`.
pub open spec fn tags_ok(f: File) -> bool
    decreases f,
{
    match f.children {
        Option::None => true,
        Option::Some(cs) => forall|i: int|
            0 <= i < cs@.len() ==> tag_rule(#[trigger] cs@[i]) && tags_ok(cs@[i]),
    }
}

/// The upper half of the depth bound: with a remaining budget of `d`
/// levels below the children, children may be attached only while the
/// budget is not exhausted, and each child then lives under budget
/// `d - 1`. A negative budget forces `children` to stay absent.
pub open spec fn expanded_within(f: File, d: int) -> bool
    decreases f,
{
    match f.children {
        Option::None => true,
        Option::Some(cs) => d >= 0 && forall|i: int|
            0 <= i < cs@.len() ==> expanded_within(#[trigger] cs@[i], d - 1),
    }
}

/// The lower half of the depth bound: a directory within the budget has
/// its listing attached, and with budget left over, so does every
/// directory child.
pub open spec fn fully_expanded(f: File, d: int) -> bool
    decreases f,
{
    f.is_dir ==> {
        &&& f.children is Some
        &&& d > 0 ==> forall|i: int|
            0 <= i < f.children->0@.len() ==> fully_expanded(#[trigger] f.children->0@[i], d - 1)
    }
}

/// `f` with its children detached: the entry as it looked when it was
/// classified, before any expansion touched it.
pub open spec fn strip(f: File) -> File {
    File {
        name: f.name,
        path: f.path,
        file_type: f.file_type,
        is_dir: f.is_dir,
        size: f.size,
        children: Option::None,
    }
}

/// Every entry of `s` with its children detached.
pub open spec fn strip_all(s: Seq<File>) -> Seq<File> {
    s.map_values(|f: File| strip(f))
}

/// The listings recorded in an expanded tree, one per expanded node, in
/// depth-first pre-order: for each node whose children were attached, its
/// child list as it was when classified (children detached), the node's
/// own listing before those of its children, siblings left to right.
pub open spec fn listing_log(f: File) -> Seq<Seq<File>>
    decreases f, 1int,
{
    match f.children {
        Option::None => Seq::<Seq<File>>::empty(),
        Option::Some(cs) => seq![strip_all(cs@)] + listing_log_seq(cs@),
    }
}

/// The listings recorded in a forest, in depth-first pre-order.
pub open spec fn listing_log_seq(s: Seq<File>) -> Seq<Seq<File>>
    decreases s, 0int,
{
    if s.len() == 0 {
        Seq::<Seq<File>>::empty()
    } else {
        listing_log_seq(s.drop_last()) + listing_log(s.last())
    }
}

/// The data-model invariant of an expanded tree: children hang only off
/// directories; a non-directory never acquires any.
pub open spec fn dirs_only(f: File) -> bool
    decreases f,
{
    match f.children {
        Option::None => true,
        Option::Some(cs) => f.is_dir && forall|i: int|
            0 <= i < cs@.len() ==> dirs_only(#[trigger] cs@[i]),
    }
}

/// What the walk guarantees of one finished root `r` against the entry `o`
/// it started from, for a requested depth of `depth`: the observed
/// attributes are untouched; a non-directory comes back identical; a
/// directory comes back with its listing attached, expanded no further
/// than `depth` extra levels, expanded at least through `depth` levels of
/// directory children, and with every attached child classified by the
/// kind-tag rule.
pub open spec fn expansion_ok(r: File, o: File, depth: u32) -> bool {
    &&& same_meta(r, o)
    &&& !o.is_dir ==> r == o
    &&& o.is_dir ==> {
        &&& r.children is Some
        &&& expanded_within(r, depth as int)
        &&& fully_expanded(r, depth as int)
        &&& dirs_only(r)
        &&& tags_ok(r)
    }
}

/// A freshly classified entry that still waits to be processed.
spec fn rem_ok(f: File) -> bool {
    &&& f.children is None
    &&& tag_rule(f)
}

/// A fully processed child of a frame whose expansion budget is `d`.
spec fn done_ok(f: File, d: int) -> bool {
    &&& expanded_within(f, d - 1)
    &&& d > 0 ==> fully_expanded(f, d - 1)
    &&& dirs_only(f)
    &&& tags_ok(f)
    &&& tag_rule(f)
}

/// One directory whose expansion is in progress: the entry itself, the
/// budget its children are expanded under, whether its listing has been
/// supplied, the listed children not yet processed (in reverse, so the
/// next one is last), and the processed children in order.
struct Frame {
    file: File,
    depth: u32,
    listed: bool,
    rem: Vec<File>,
    done: Vec<File>,
    staged_g: Ghost<Seq<File>>,
}

spec fn frame_inv(fr: Frame) -> bool {
    &&& fr.file.is_dir
    &&& forall|j: int| 0 <= j < fr.rem@.len() ==> rem_ok(#[trigger] fr.rem@[j])
    &&& forall|j: int| 0 <= j < fr.done@.len() ==> done_ok(#[trigger] fr.done@[j], fr.depth as int)
    &&& !fr.listed ==> fr.rem@.len() == 0 && fr.done@.len() == 0
    &&& fr.listed ==> {
        &&& fr.done@.len() + fr.rem@.len() <= fr.staged_g@.len()
        &&& forall|i: int| 0 <= i < fr.done@.len() ==> strip(#[trigger] fr.done@[i]) == fr.staged_g@[i]
        &&& forall|j: int|
            0 <= j < fr.rem@.len() ==> #[trigger] fr.rem@[j] == fr.staged_g@[fr.staged_g@.len() - 1
                - j]
    }
}

/// A frame with a live child frame above it has staged exactly one entry
/// beyond what it has processed and queued: the child in flight.
spec fn frame_counts(fr: Frame, in_flight: int) -> bool {
    fr.listed ==> fr.done@.len() + fr.rem@.len() + in_flight == fr.staged_g@.len()
}

/// The listings this frame accounts for so far: its own, once supplied,
/// then those recorded in its already-processed children.
spec fn frame_log(fr: Frame) -> Seq<Seq<File>> {
    (if fr.listed {
        seq![fr.staged_g@]
    } else {
        Seq::<Seq<File>>::empty()
    }) + listing_log_seq(fr.done@)
}

/// How a frame relates to the frame below it, which staged its entry: the
/// entry is the parent's next unprocessed staged child, still classified
/// and unexpanded.
spec fn child_link(child: Frame, parent: Frame) -> bool {
    &&& tag_rule(child.file)
    &&& child.file.children is None
    &&& parent.done@.len() < parent.staged_g@.len()
    &&& child.file == parent.staged_g@[parent.done@.len() as int]
}

/// A root as the data model hands it over: a non-directory carries no
/// children (a directory may; its expansion replaces them).
pub open spec fn plain_root(f: File) -> bool {
    !f.is_dir ==> f.children is None
}

/// The listings the whole stack accounts for, bottom frame first.
spec fn stack_logs(s: Seq<Frame>) -> Seq<Seq<File>>
    decreases s.len(),
{
    if s.len() == 0 {
        Seq::<Seq<File>>::empty()
    } else {
        stack_logs(s.drop_last()) + frame_log(s.last())
    }
}

/// The pending work held in a stack: one unit per frame plus two per
/// unprocessed child. Every processing step — including the ones that
/// stop at a new listing request — strictly shrinks this together with
/// the pending roots' share.
spec fn frames_work(s: Seq<Frame>) -> nat
    decreases s.len(),
{
    if s.len() == 0 {
        0
    } else {
        frames_work(s.drop_last()) + 1 + 2 * s.last().rem@.len()
    }
}

/// Walks a forest of entries, expanding each directory to a requested
/// depth. The caller drives it: `next_request` yields the next path whose
/// listing is needed (or reports completion), `supply` hands that listing
/// back, and `into_results` releases the finished forest.
pub struct Walker {
    pending: Vec<File>,
    stack: Vec<Frame>,
    out: Vec<File>,
    depth: u32,
    orig: Ghost<Seq<File>>,
    log: Ghost<Seq<Seq<File>>>,
}

impl Walker {
    /// The entries the walk started from, in order.
    pub closed spec fn roots(self) -> Seq<File> {
        self.orig@
    }

    /// The requested depth: how many extra levels below each root's own
    /// listing are expanded.
    pub closed spec fn req_depth(self) -> u32 {
        self.depth
    }

    /// Whether the walker has asked for a listing and not yet received it.
    pub closed spec fn awaiting(self) -> bool {
        self.stack@.len() > 0 && !self.stack@.last().listed
    }

    /// The path whose listing the walker waits for.
    pub closed spec fn awaiting_path(self) -> Seq<char> {
        self.stack@.last().file.path@
    }

    /// Whether every root has been fully processed.
    pub closed spec fn finished(self) -> bool {
        self.stack@.len() == 0 && self.pending@.len() == 0
    }

    /// The listing supplied for the entry the walk currently works on,
    /// classified, in enumeration order: what becomes that entry's
    /// children as processing goes on.
    pub closed spec fn staged(self) -> Seq<File> {
        self.stack@.last().staged_g@
    }

    /// Every listing supplied so far, classified, in request order — that
    /// is, in depth-first pre-order of the expanded nodes of the forest
    /// under construction.
    pub closed spec fn log(self) -> Seq<Seq<File>> {
        self.log@
    }

    /// The walk's remaining work, as a measure a driving loop can rest
    /// on: every `next_request` that yields a request strictly shrinks
    /// it, a finished walk has none left, and `supply` adds exactly two
    /// units per supplied entry. Since each supplied listing is finite, a
    /// loop that answers every request is left with a lexicographic
    /// measure — listings still to be handed over, then this — and so
    /// terminates; `run_with_feed` carries that proof out.
    pub closed spec fn work(self) -> nat {
        2 * self.pending@.len() + frames_work(self.stack@)
    }

    pub closed spec fn wf(self) -> bool {
        &&& forall|i: int| 0 <= i < self.stack@.len() ==> frame_inv(#[trigger] self.stack@[i])
        &&& forall|i: int| 0 <= i < self.stack@.len() - 1 ==> (#[trigger] self.stack@[i]).listed
        &&& forall|i: int|
            0 <= i < self.stack@.len() - 1 ==> self.stack@[i].depth > 0
                && (#[trigger] self.stack@[i + 1]).depth == self.stack@[i].depth - 1
        &&& self.stack@.len() > 0 ==> self.stack@[0].depth == self.depth
        &&& forall|i: int|
            1 <= i < self.stack@.len() ==> child_link((#[trigger] self.stack@[i]), self.stack@[i - 1])
        &&& forall|i: int|
            0 <= i < self.stack@.len() - 1 ==> frame_counts(#[trigger] self.stack@[i], 1)
        &&& self.stack@.len() > 0 ==> frame_counts(self.stack@.last(), 0)
        &&& self.out@.len() + self.active() + self.pending@.len() == self.orig@.len()
        &&& forall|j: int|
            0 <= j < self.pending@.len() ==> #[trigger] self.pending@[j]
                == self.orig@[self.orig@.len() - 1 - j]
        &&& forall|i: int|
            0 <= i < self.out@.len() ==> expansion_ok(#[trigger] self.out@[i], self.orig@[i], self.depth)
        &&& self.stack@.len() > 0 ==> {
            &&& same_meta(self.stack@[0].file, self.orig@[self.out@.len() as int])
            &&& self.orig@[self.out@.len() as int].is_dir
        }
        &&& forall|i: int|
            0 <= i < self.orig@.len() ==> plain_root(#[trigger] self.orig@[i])
        &&& self.log@ == listing_log_seq(self.out@) + stack_logs(self.stack@)
    }

    spec fn active(self) -> nat {
        if self.stack@.len() > 0 {
            1
        } else {
            0
        }
    }

    /// Starts a walk over `roots` with `depth` extra levels of expansion
    /// below each root's own listing.
    pub fn new(roots: Vec<File>, depth: u32) -> (w: Walker)
        requires
            forall|i: int| 0 <= i < roots@.len() ==> plain_root(#[trigger] roots@[i]),
        ensures
            w.wf(),
            !w.awaiting(),
            w.roots() == roots@,
            w.req_depth() == depth,
            w.log() == Seq::<Seq<File>>::empty(),
            w.work() == 2 * roots@.len(),
    {
        let ghost all = roots@;
        let mut rest = roots;
        let mut pending: Vec<File> = Vec::new();
        while rest.len() > 0
            invariant
                rest@ =~= all.subrange(0, all.len() - pending@.len()),
                pending@.len() <= all.len(),
                forall|j: int|
                    0 <= j < pending@.len() ==> #[trigger] pending@[j] == all[all.len() - 1 - j],
            decreases rest@.len(),
        {
            let f = rest.pop().unwrap();
            pending.push(f);
        }
        Walker {
            pending,
            stack: Vec::new(),
            out: Vec::new(),
            depth,
            orig: Ghost(all),
            log: Ghost(Seq::empty()),
        }
    }

    /// Advances the walk to its next listing request. `Some(p)` asks the
    /// caller to list the directory at `p` and come back through `supply`;
    /// `None` says the walk is finished. Only directory entries are ever
    /// requested, each exactly once: a non-directory passes through the
    /// walk untouched.
    pub fn next_request(&mut self) -> (r: Option<String>)
        requires
            old(self).wf(),
            !old(self).awaiting(),
        ensures
            final(self).wf(),
            final(self).roots() == old(self).roots(),
            final(self).req_depth() == old(self).req_depth(),
            final(self).log() == old(self).log(),
            match r {
                Option::Some(p) => {
                    &&& final(self).awaiting()
                    &&& p@ == final(self).awaiting_path()
                    &&& final(self).work() < old(self).work()
                },
                Option::None => {
                    &&& !final(self).awaiting()
                    &&& final(self).finished()
                    &&& final(self).work() == 0
                },
            },
    {
        loop
            invariant
                self.wf(),
                !self.awaiting(),
                self.orig == old(self).orig,
                self.depth == old(self).depth,
                self.log == old(self).log,
                self.work() <= old(self).work(),
            decreases self.work(),
        {
            let ghost pre = *self;
            if self.stack.len() == 0 {
                if self.pending.len() == 0 {
                    proof {
                        assert(frames_work(self.stack@) == 0);
                    }
                    return None;
                }
                let root = self.pending.pop().unwrap();
                proof {
                    assert(root == self.orig@[self.orig@.len() - pre.pending@.len()]);
                    assert(self.orig@.len() - pre.pending@.len() == self.out@.len() as int);
                }
                if root.is_dir {
                    let path = root.path.clone();
                    let fr = Frame {
                        file: root,
                        depth: self.depth,
                        listed: false,
                        rem: Vec::new(),
                        done: Vec::new(),
                        staged_g: Ghost(Seq::empty()),
                    };
                    let ghost frg = fr;
                    self.stack.push(fr);
                    proof {
                        assert(self.stack@ =~= seq![frg]);
                        assert(stack_logs(self.stack@) == stack_logs(self.stack@.drop_last())
                            + frame_log(frg));
                        assert(self.stack@.drop_last() =~= Seq::<Frame>::empty());
                        assert(frame_log(frg) =~= Seq::<Seq<File>>::empty());
                        assert(stack_logs(self.stack@) =~= Seq::<Seq<File>>::empty());
                        assert(listing_log_seq(self.out@) + stack_logs(self.stack@)
                            =~= listing_log_seq(self.out@) + stack_logs(pre.stack@));
                        assert(frames_work(self.stack@) == frames_work(self.stack@.drop_last()) + 1
                            + 2 * frg.rem@.len());
                        assert(frames_work(Seq::<Frame>::empty()) == 0);
                        assert(frames_work(pre.stack@) == 0);
                        assert(self.work() < pre.work());
                    }
                    return Some(path);
                } else {
                    proof {
                        assert(plain_root(root));
                        assert(root.children is None);
                        assert(listing_log(root) =~= Seq::<Seq<File>>::empty());
                        let o2 = self.out@.push(root);
                        assert(listing_log_seq(o2) == listing_log_seq(o2.drop_last())
                            + listing_log(o2.last()));
                        assert(o2.drop_last() =~= self.out@);
                        assert(listing_log_seq(o2) =~= listing_log_seq(self.out@));
                    }
                    self.out.push(root);
                }
            } else {
                let mut fr = self.stack.pop().unwrap();
                let ghost top = pre.stack@.len() - 1;
                proof {
                    assert(frame_inv(pre.stack@[top]));
                    assert(fr.listed);
                }
                if fr.rem.len() > 0 {
                    let child = fr.rem.pop().unwrap();
                    proof {
                        assert(rem_ok(child));
                    }
                    if fr.depth > 0 && child.is_dir {
                        let path = child.path.clone();
                        let ghost frg = fr;
                        let nfr = Frame {
                            file: child,
                            depth: fr.depth - 1,
                            listed: false,
                            rem: Vec::new(),
                            done: Vec::new(),
                            staged_g: Ghost(Seq::empty()),
                        };
                        let ghost nfrg = nfr;
                        self.stack.push(fr);
                        self.stack.push(nfr);
                        proof {
                            let s2 = self.stack@;
                            assert(forall|i: int|
                                0 <= i < s2.len() - 2 ==> s2[i] == pre.stack@[i]);
                            assert(s2[s2.len() - 2] == frg);
                            assert(frame_inv(frg));
                            assert(child == frg.staged_g@[frg.done@.len() as int]);
                            assert(child_link(nfrg, frg));
                            assert(s2.drop_last() =~= pre.stack@.drop_last().push(frg));
                            assert(s2.drop_last().drop_last() =~= pre.stack@.drop_last());
                            assert(frame_log(frg) =~= frame_log(pre.stack@.last()));
                            assert(frame_log(nfrg) =~= Seq::<Seq<File>>::empty());
                            assert(s2.last() == nfrg);
                            assert(stack_logs(s2) == stack_logs(s2.drop_last()) + frame_log(nfrg));
                            assert(s2.drop_last().last() == frg);
                            assert(stack_logs(s2.drop_last()) == stack_logs(
                                s2.drop_last().drop_last(),
                            ) + frame_log(frg));
                            assert(stack_logs(pre.stack@) == stack_logs(pre.stack@.drop_last())
                                + frame_log(pre.stack@.last()));
                            assert(stack_logs(s2) =~= stack_logs(pre.stack@));
                            assert(frames_work(s2) == frames_work(s2.drop_last()) + 1
                                + 2 * nfrg.rem@.len());
                            assert(frames_work(s2.drop_last()) == frames_work(
                                s2.drop_last().drop_last(),
                            ) + 1 + 2 * frg.rem@.len());
                            assert(frames_work(pre.stack@) == frames_work(pre.stack@.drop_last())
                                + 1 + 2 * pre.stack@.last().rem@.len());
                            assert(pre.stack@.last().rem@.len() == frg.rem@.len() + 1);
                            assert(self.work() < pre.work());
                        }
                        return Some(path);
                    } else {
                        proof {
                            assert(expanded_within(child, fr.depth as int - 1));
                            assert(fr.depth > 0 ==> fully_expanded(child, fr.depth as int - 1));
                            assert(dirs_only(child));
                            assert(tags_ok(child));
                            assert(done_ok(child, fr.depth as int));
                            assert(child == fr.staged_g@[fr.done@.len() as int]);
                            assert(strip(child) =~= child);
                        }
                        fr.done.push(child);
                        let ghost frg = fr;
                        self.stack.push(fr);
                        proof {
                            let s2 = self.stack@;
                            assert(forall|i: int|
                                0 <= i < s2.len() - 1 ==> s2[i] == pre.stack@[i]);
                            assert(s2[s2.len() - 1] == frg);
                            assert(frame_inv(frg));
                            assert(s2.drop_last() =~= pre.stack@.drop_last());
                            assert(frames_work(s2) == frames_work(s2.drop_last()) + 1
                                + 2 * frg.rem@.len());
                            assert(frames_work(pre.stack@) == frames_work(pre.stack@.drop_last())
                                + 1 + 2 * pre.stack@.last().rem@.len());
                            assert(pre.stack@.last().rem@.len() == frg.rem@.len() + 1);
                            assert(frames_work(s2) < frames_work(pre.stack@));
                            assert(frg.done@.drop_last() =~= pre.stack@.last().done@);
                            assert(listing_log(child) =~= Seq::<Seq<File>>::empty());
                            assert(listing_log_seq(frg.done@) == listing_log_seq(
                                frg.done@.drop_last(),
                            ) + listing_log(frg.done@.last()));
                            assert(frame_log(frg) =~= frame_log(pre.stack@.last()));
                            assert(stack_logs(s2) =~= stack_logs(pre.stack@));
                        }
                    }
                } else {
                    let ghost frg = fr;
                    let mut file = fr.file;
                    file.children = Some(fr.done);
                    let ghost fileg = file;
                    proof {
                        assert(frg == pre.stack@.last());
                        assert(expanded_within(fileg, frg.depth as int));
                        assert(fully_expanded(fileg, frg.depth as int));
                        assert(dirs_only(fileg));
                        assert(tags_ok(fileg));
                        assert(frg.done@.len() == frg.staged_g@.len());
                        assert(strip_all(frg.done@) =~= frg.staged_g@);
                        assert(fileg.children->0@ == frg.done@);
                        assert(listing_log(fileg) =~= frame_log(frg));
                    }
                    if self.stack.len() == 0 {
                        proof {
                            assert(pre.stack@.len() == 1);
                            assert(frg == pre.stack@[0]);
                            assert(same_meta(fileg, pre.orig@[pre.out@.len() as int]));
                            assert(expansion_ok(
                                fileg,
                                pre.orig@[pre.out@.len() as int],
                                pre.depth,
                            ));
                        }
                        self.out.push(file);
                        proof {
                            assert(frames_work(self.stack@) == 0);
                            assert(frames_work(pre.stack@) == frames_work(pre.stack@.drop_last())
                                + 1 + 2 * frg.rem@.len());
                            assert(frames_work(self.stack@) < frames_work(pre.stack@));
                            assert(self.out@.drop_last() =~= pre.out@);
                            assert(listing_log_seq(self.out@) == listing_log_seq(pre.out@)
                                + listing_log(fileg));
                            assert(pre.stack@.drop_last() =~= Seq::<Frame>::empty());
                            assert(stack_logs(pre.stack@) == stack_logs(pre.stack@.drop_last())
                                + frame_log(pre.stack@.last()));
                            assert(stack_logs(Seq::<Frame>::empty())
                                == Seq::<Seq<File>>::empty());
                            assert(stack_logs(pre.stack@) =~= frame_log(frg));
                            assert(stack_logs(self.stack@) =~= Seq::<Seq<File>>::empty());
                            assert(listing_log_seq(self.out@) + stack_logs(self.stack@)
                                =~= listing_log_seq(pre.out@) + stack_logs(pre.stack@));
                        }
                    } else {
                        let mut parent = self.stack.pop().unwrap();
                        let ghost par = pre.stack@.len() - 2;
                        proof {
                            assert(parent == pre.stack@[par]);
                            assert(frame_inv(pre.stack@[par]));
                            assert(pre.stack@[par + 1] == frg);
                            assert(child_link(frg, pre.stack@[par]));
                            assert(parent.depth > 0);
                            assert(frg.depth == parent.depth - 1);
                            assert(tag_rule(frg.file));
                            assert(done_ok(fileg, parent.depth as int));
                            assert(strip(fileg) =~= frg.file);
                            assert(strip(fileg) == parent.staged_g@[parent.done@.len() as int]);
                        }
                        parent.done.push(file);
                        let ghost parg = parent;
                        self.stack.push(parent);
                        proof {
                            let s2 = self.stack@;
                            assert(forall|i: int|
                                0 <= i < s2.len() - 1 ==> s2[i] == pre.stack@[i]);
                            assert(s2[s2.len() - 1] == parg);
                            assert(frame_inv(parg));
                            assert(s2.drop_last() =~= pre.stack@.drop_last().drop_last());
                            assert(s2.last() == parg);
                            assert(pre.stack@.last() == frg);
                            assert(pre.stack@.drop_last().last() == pre.stack@[par]);
                            assert(frames_work(s2) == frames_work(s2.drop_last()) + 1 + 2
                                * parg.rem@.len());
                            assert(frames_work(pre.stack@) == frames_work(pre.stack@.drop_last())
                                + 1 + 2 * frg.rem@.len());
                            assert(frames_work(pre.stack@.drop_last()) == frames_work(
                                pre.stack@.drop_last().drop_last(),
                            ) + 1 + 2 * pre.stack@[par].rem@.len());
                            assert(parg.rem@ == pre.stack@[par].rem@);
                            assert(frames_work(s2) < frames_work(pre.stack@));
                            assert(parg.done@.drop_last() =~= pre.stack@[par].done@);
                            assert(parg.done@.last() == fileg);
                            assert(listing_log_seq(parg.done@) == listing_log_seq(
                                pre.stack@[par].done@,
                            ) + listing_log(fileg));
                            assert(frame_log(parg) =~= frame_log(pre.stack@[par])
                                + frame_log(frg));
                            assert(stack_logs(s2) == stack_logs(s2.drop_last()) + frame_log(parg));
                            assert(stack_logs(pre.stack@) == stack_logs(pre.stack@.drop_last())
                                + frame_log(frg));
                            assert(stack_logs(pre.stack@.drop_last()) == stack_logs(
                                pre.stack@.drop_last().drop_last(),
                            ) + frame_log(pre.stack@[par]));
                            assert(stack_logs(s2) =~= stack_logs(pre.stack@));
                        }
                    }
                }
            }
        }
    }

    /// Accepts the listing for the path of the pending request: the raw
    /// entries are classified, in enumeration order, and become the
    /// awaiting entry's children as processing goes on. A failed read is
    /// reported as an empty listing.
    pub fn supply(&mut self, entries: Vec<RawEntry>)
        requires
            old(self).wf(),
            old(self).awaiting(),
        ensures
            final(self).wf(),
            !final(self).awaiting(),
            final(self).roots() == old(self).roots(),
            final(self).req_depth() == old(self).req_depth(),
            final(self).staged().len() == entries@.len(),
            forall|i: int|
                0 <= i < entries@.len() ==> raw_matches(
                    #[trigger] final(self).staged()[i],
                    entries@[i],
                ),
            final(self).log() == old(self).log().push(final(self).staged()),
            final(self).work() == old(self).work() + 2 * entries@.len(),
    {
        let ghost pre = *self;
        let files = list_directory(entries);
        let ghost fs = files@;
        let mut rest = files;
        let mut rem: Vec<File> = Vec::new();
        while rest.len() > 0
            invariant
                rest@ =~= fs.subrange(0, fs.len() - rem@.len()),
                rem@.len() <= fs.len(),
                forall|j: int| 0 <= j < rem@.len() ==> #[trigger] rem@[j] == fs[fs.len() - 1 - j],
            decreases rest@.len(),
        {
            let f = rest.pop().unwrap();
            rem.push(f);
        }
        let mut fr = self.stack.pop().unwrap();
        proof {
            assert(frame_inv(pre.stack@[pre.stack@.len() - 1]));
        }
        fr.listed = true;
        fr.rem = rem;
        fr.staged_g = Ghost(fs);
        let ghost frg = fr;
        self.stack.push(fr);
        self.log = Ghost(self.log@.push(fs));
        proof {
            let s2 = self.stack@;
            assert(forall|i: int| 0 <= i < s2.len() - 1 ==> s2[i] == pre.stack@[i]);
            assert(s2[s2.len() - 1] == frg);
            assert(forall|j: int| 0 <= j < frg.rem@.len() ==> rem_ok(#[trigger] frg.rem@[j]));
            assert(frame_inv(frg));
            assert(self.staged() == fs);
            assert(s2.drop_last() =~= pre.stack@.drop_last());
            assert(pre.stack@.last().done@ =~= frg.done@);
            assert(listing_log_seq(frg.done@) =~= Seq::<Seq<File>>::empty());
            assert(frame_log(pre.stack@.last()) =~= Seq::<Seq<File>>::empty());
            assert(frame_log(frg) =~= seq![fs]);
            assert(stack_logs(s2) == stack_logs(s2.drop_last()) + frame_log(frg));
            assert(stack_logs(pre.stack@) == stack_logs(pre.stack@.drop_last()) + frame_log(
                pre.stack@.last(),
            ));
            assert(self.log@ =~= listing_log_seq(self.out@) + stack_logs(s2));
            assert(frames_work(s2) == frames_work(s2.drop_last()) + 1 + 2 * frg.rem@.len());
            assert(frames_work(pre.stack@) == frames_work(pre.stack@.drop_last()) + 1 + 2
                * pre.stack@.last().rem@.len());
            assert(pre.stack@.last().rem@.len() == 0);
            assert(frg.rem@.len() == entries@.len());
        }
    }

    /// Releases the finished forest: one result per root, in order, each
    /// satisfying `expansion_ok` against its root and the requested depth.
    /// The listings recorded in the forest are exactly the listings that
    /// were supplied, in request order: every supplied listing became the
    /// children of precisely the entry that asked for it, and no child
    /// came from anywhere else.
    pub fn into_results(self) -> (r: Vec<File>)
        requires
            self.wf(),
            self.finished(),
        ensures
            r@.len() == self.roots().len(),
            forall|i: int|
                0 <= i < r@.len() ==> expansion_ok(
                    #[trigger] r@[i],
                    self.roots()[i],
                    self.req_depth(),
                ),
            listing_log_seq(r@) == self.log(),
    {
        proof {
            assert(stack_logs(self.stack@) =~= Seq::<Seq<File>>::empty());
            assert(listing_log_seq(self.out@) + stack_logs(self.stack@) =~= listing_log_seq(
                self.out@,
            ));
        }
        self.out
    }
}

/// How one recorded listing of a finished walk relates to position `k`
/// of the feed that drove it: within the feed, it is that listing
/// classified entry by entry; past the feed's end, it is empty.
pub open spec fn listing_from_feed(l: Seq<File>, feed: Seq<Vec<RawEntry>>, k: int) -> bool {
    if 0 <= k < feed.len() {
        l.len() == feed[k]@.len() && forall|j: int|
            0 <= j < l.len() ==> raw_matches(#[trigger] l[j], feed[k]@[j])
    } else {
        l.len() == 0
    }
}

/// Runs a whole walk to completion against a pre-recorded sequence of
/// listings: each request is answered with the next listing of `feed`,
/// and with an empty listing once `feed` is exhausted (the way an
/// unreadable directory reads). This is the walk's termination put as
/// code and proved: whatever the requested depth and whatever the
/// listings hold — a symlink loop only makes listings repeat — a walk
/// answered with finitely many finite listings finishes, because every
/// request strictly shrinks `Walker::work` and each answer adds exactly
/// its own listing's share, so listings-left-to-hand-over followed by
/// `work` decreases lexicographically.
pub fn run_with_feed(roots: Vec<File>, depth: u32, feed: Vec<Vec<RawEntry>>) -> (r: Vec<File>)
    requires
        forall|i: int| 0 <= i < roots@.len() ==> plain_root(#[trigger] roots@[i]),
    ensures
        r@.len() == roots@.len(),
        forall|i: int| 0 <= i < r@.len() ==> expansion_ok(#[trigger] r@[i], roots@[i], depth),
        forall|k: int|
            0 <= k < listing_log_seq(r@).len() ==> listing_from_feed(
                #[trigger] listing_log_seq(r@)[k],
                feed@,
                k,
            ),
{
    let mut w = Walker::new(roots, depth);
    let mut rest = feed;
    loop
        invariant
            w.wf(),
            !w.awaiting(),
            w.roots() == roots@,
            w.req_depth() == depth,
            rest@ =~= feed@.subrange(feed@.len() - rest@.len(), feed@.len() as int),
            rest@.len() > 0 ==> w.log().len() == feed@.len() - rest@.len(),
            rest@.len() == 0 ==> w.log().len() >= feed@.len(),
            forall|k: int|
                0 <= k < w.log().len() ==> listing_from_feed(#[trigger] w.log()[k], feed@, k),
        decreases rest@.len(), w.work(),
    {
        match w.next_request() {
            Option::Some(_p) => {
                if rest.len() > 0 {
                    let ghost restpre = rest@;
                    let entries = rest.remove(0);
                    proof {
                        assert(entries == feed@[feed@.len() - restpre.len()]);
                        assert(rest@ =~= feed@.subrange(
                            feed@.len() - rest@.len(),
                            feed@.len() as int,
                        ));
                    }
                    w.supply(entries);
                } else {
                    let entries: Vec<RawEntry> = Vec::new();
                    w.supply(entries);
                }
            },
            Option::None => {
                return w.into_results();
            },
        }
    }
}

impl File {
    /// Begins the expansion of this entry to `depth` extra levels below
    /// its own listing, as a walk the caller drives. A non-directory comes
    /// back from the walk untouched; a directory comes back with its
    /// listing attached and each child directory expanded while depth
    /// remains.
    pub fn with_children(self, depth: u32) -> (w: Walker)
        requires
            plain_root(self),
        ensures
            w.wf(),
            !w.awaiting(),
            w.roots() == seq![self],
            w.req_depth() == depth,
            w.log() == Seq::<Seq<File>>::empty(),
            w.work() == 2,
    {
        let mut roots: Vec<File> = Vec::new();
        let ghost me = self;
        roots.push(self);
        proof {
            assert(roots@ =~= seq![me]);
        }
        Walker::new(roots, depth)
    }
}

/// Expansion below the depth bound never happens: a node whose remaining
/// budget is already spent (negative) has no children attached, at any
/// level below a walk that kept `expanded_within`.
pub proof fn lemma_expansion_stops(f: File, d: int)
    requires
        expanded_within(f, d),
        d < 0,
    ensures
        f.children is None,
{
}

/// Expansion within the depth bound always happens: a directory for which
/// `fully_expanded` holds has its listing attached, whatever the remaining
/// budget.
pub proof fn lemma_expansion_reaches(f: File, d: int)
    requires
        fully_expanded(f, d),
        f.is_dir,
    ensures
        f.children is Some,
{
}

} // verus!
