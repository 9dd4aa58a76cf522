//! Which file-system events lead to an incremental index update, and the
//! configured roots with their encodings.
use vstd::prelude::*;
use crate::encoding::{enc_by_name, encoding_for_name, label_encoding_name, TextEncoding};
use crate::text::{all_distinct, strings_view};
use vstd::utf8::encode_utf8;

verus! {

/// The kind of a file-system event, as the watcher reports it.
#[derive(PartialEq, Eq, Structural, Clone, Copy, Debug)]
pub enum WatchEventKind {
    Any,
    Access,
    Create,
    Modify,
    Remove,
    Other,
}

/// Creations, modifications and removals change what the index should hold;
/// other events are ignored.
pub fn is_index_relevant(kind: WatchEventKind) -> (r: bool)
    ensures
        r == (kind == WatchEventKind::Create || kind == WatchEventKind::Modify || kind
            == WatchEventKind::Remove),
{
    match kind {
        WatchEventKind::Create | WatchEventKind::Modify | WatchEventKind::Remove => true,
        _ => false,
    }
}

/// Resolves configured roots `(path, encoding label)` to their encodings, in
/// order.
pub fn resolve_roots(roots: &[(String, String)]) -> (r: Vec<(String, TextEncoding)>)
    ensures
        r@.len() == roots@.len(),
        forall|k: int|
            0 <= k < roots@.len() ==> (#[trigger] r@[k]).0@ == roots@[k].0@ && r@[k].1
                == encoding_for_name(label_encoding_name(encode_utf8(roots@[k].1@))),
{
    let mut out: Vec<(String, TextEncoding)> = Vec::new();
    let mut k: usize = 0;
    while k < roots.len()
        invariant
            k <= roots.len(),
            out@.len() == k,
            forall|j: int|
                0 <= j < k ==> (#[trigger] out@[j]).0@ == roots@[j].0@ && out@[j].1
                    == encoding_for_name(label_encoding_name(encode_utf8(roots@[j].1@))),
        decreases roots.len() - k,
    {
        out.push((crate::text::str_to_string(roots[k].0.as_str()), enc_by_name(roots[k].1.as_str())));
        k = k + 1;
    }
    out
}

/// `s` extended by each entry of `ps` that it does not hold yet, in order.
pub open spec fn add_new(s: Seq<Seq<char>>, ps: Seq<Seq<char>>) -> Seq<Seq<char>>
    decreases ps.len(),
{
    if ps.len() == 0 {
        s
    } else {
        let t = add_new(s, ps.drop_last());
        if t.contains(ps.last()) {
            t
        } else {
            t.push(ps.last())
        }
    }
}

/// What `add_new` keeps: the entries of `s` first and unchanged, every entry
/// of either sequence and nothing else, and no entry twice when `s` had none.
pub proof fn lemma_add_new(s: Seq<Seq<char>>, ps: Seq<Seq<char>>)
    ensures
        add_new(s, ps).len() >= s.len(),
        add_new(s, ps).subrange(0, s.len() as int) == s,
        forall|p: Seq<char>| add_new(s, ps).contains(p) <==> (s.contains(p) || ps.contains(p)),
        all_distinct(s) ==> all_distinct(add_new(s, ps)),
    decreases ps.len(),
{
    if ps.len() > 0 {
        let init = ps.drop_last();
        lemma_add_new(s, init);
        let t = add_new(s, init);
        assert(ps =~= init.push(ps.last()));
        if !t.contains(ps.last()) {
            let u = t.push(ps.last());
            assert(u.subrange(0, s.len() as int) =~= t.subrange(0, s.len() as int));
            assert forall|p: Seq<char>| u.contains(p) <==> (s.contains(p) || ps.contains(p)) by {
                if u.contains(p) && p != ps.last() {
                    let k = choose|k: int| 0 <= k < u.len() && u[k] == p;
                    assert(t[k] == p);
                }
                if ps.contains(p) && p != ps.last() {
                    let k = choose|k: int| 0 <= k < ps.len() && ps[k] == p;
                    assert(init[k] == p);
                    assert(init.contains(p));
                    assert(t.contains(p));
                    let j = choose|j: int| 0 <= j < t.len() && t[j] == p;
                    assert(u[j] == p);
                }
                if s.contains(p) {
                    assert(t.contains(p));
                    let j = choose|j: int| 0 <= j < t.len() && t[j] == p;
                    assert(u[j] == p);
                }
                if p == ps.last() {
                    assert(u[u.len() - 1] == p);
                }
            }
        } else {
            assert forall|p: Seq<char>| t.contains(p) <==> (s.contains(p) || ps.contains(p)) by {
                if ps.contains(p) && p != ps.last() {
                    let k = choose|k: int| 0 <= k < ps.len() && ps[k] == p;
                    assert(init[k] == p);
                }
                if init.contains(p) {
                    let k = choose|k: int| 0 <= k < init.len() && init[k] == p;
                    assert(ps[k] == p);
                }
            }
        }
    } else {
        assert(s.subrange(0, s.len() as int) =~= s);
    }
}

/// The paths changed since the last flush of the watcher, each held once, in
/// the order in which they were first reported.
pub struct PendingPaths {
    paths: Vec<String>,
}

impl View for PendingPaths {
    type V = Seq<Seq<char>>;

    closed spec fn view(&self) -> Seq<Seq<char>> {
        strings_view(self.paths@)
    }
}

impl PendingPaths {
    /// No path is held twice.
    pub open spec fn wf(&self) -> bool {
        all_distinct(self@)
    }

    /// Nothing pending.
    pub fn new() -> (r: PendingPaths)
        ensures
            r.wf(),
            r@ == Seq::<Seq<char>>::empty(),
    {
        let r = PendingPaths { paths: Vec::new() };
        assert(r@ =~= Seq::<Seq<char>>::empty());
        r
    }

    /// Whether no path is pending.
    pub fn is_empty(&self) -> (r: bool)
        ensures
            r == (self@.len() == 0),
    {
        self.paths.len() == 0
    }

    /// Whether `path` is pending.
    fn holds(&self, path: &String) -> (r: bool)
        ensures
            r == self@.contains(path@),
    {
        let mut k: usize = 0;
        while k < self.paths.len()
            invariant
                k <= self.paths.len(),
                forall|j: int| 0 <= j < k ==> self@[j] != path@,
            decreases self.paths.len() - k,
        {
            if self.paths[k] == *path {
                assert(self@[k as int] == path@);
                return true;
            }
            k = k + 1;
        }
        proof {
            if self@.contains(path@) {
                let j = choose|j: int| 0 <= j < self@.len() && self@[j] == path@;
                assert(self@[j] != path@);
            }
        }
        false
    }

    /// Records the paths of one watcher event. Creations, modifications and
    /// removals add each of their paths that is not pending yet; other events
    /// change nothing.
    pub fn collect_event(&mut self, kind: WatchEventKind, paths: &[String])
        requires
            old(self).wf(),
        ensures
            final(self).wf(),
            !(kind == WatchEventKind::Create || kind == WatchEventKind::Modify || kind
                == WatchEventKind::Remove) ==> final(self)@ == old(self)@,
            (kind == WatchEventKind::Create || kind == WatchEventKind::Modify || kind
                == WatchEventKind::Remove) ==> final(self)@ == add_new(old(self)@, strings_view(paths@)),
            forall|p: Seq<char>|
                final(self)@.contains(p) ==> old(self)@.contains(p) || strings_view(paths@).contains(p),
    {
        if !is_index_relevant(kind) {
            return;
        }
        let ghost start = self@;
        let ghost ps = strings_view(paths@);
        let mut i: usize = 0;
        while i < paths.len()
            invariant
                i <= paths.len(),
                ps == strings_view(paths@),
                self@ == add_new(start, ps.subrange(0, i as int)),
            decreases paths.len() - i,
        {
            let ghost before = self@;
            assert(ps.subrange(0, i + 1).drop_last() =~= ps.subrange(0, i as int));
            assert(ps.subrange(0, i + 1).last() == paths@[i as int]@);
            if !self.holds(&paths[i]) {
                self.paths.push(paths[i].clone());
                assert(self@ =~= before.push(paths@[i as int]@));
            }
            i = i + 1;
        }
        assert(ps.subrange(0, paths@.len() as int) =~= ps);
        proof {
            lemma_add_new(start, ps);
        }
    }

    /// Hands out the pending paths, in the order first reported, and empties
    /// the set.
    pub fn drain(&mut self) -> (r: Vec<String>)
        ensures
            strings_view(r@) == old(self)@,
            final(self)@ == Seq::<Seq<char>>::empty(),
            final(self).wf(),
    {
        let mut out: Vec<String> = Vec::new();
        std::mem::swap(&mut out, &mut self.paths);
        assert(self@ =~= Seq::<Seq<char>>::empty());
        out
    }
}

/// What the watcher does next.
#[derive(PartialEq, Eq, Structural, Clone, Copy, Debug)]
pub enum WatchAction {
    /// Apply the pending paths to the index and commit.
    Flush,
    /// End the watcher.
    Stop,
    /// Wait for more file events.
    Collect,
}

/// The watcher's next step: pending paths are applied first; with nothing
/// pending it ends once a stop was asked for (or its stop handle dropped),
/// and otherwise waits for events.
pub fn watch_action(stop_requested: bool, pending_empty: bool) -> (r: WatchAction)
    ensures
        !pending_empty ==> r == WatchAction::Flush,
        pending_empty && stop_requested ==> r == WatchAction::Stop,
        pending_empty && !stop_requested ==> r == WatchAction::Collect,
{
    if !pending_empty {
        WatchAction::Flush
    } else if stop_requested {
        WatchAction::Stop
    } else {
        WatchAction::Collect
    }
}

} // verus!
