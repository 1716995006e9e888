//! Virtual reels: an explicit frame list that replaces filesystem
//! enumeration, with its own choice of register source.

use vstd::prelude::*;
use crate::cut::Register;
use crate::error::concat4;

verus! {

broadcast use vstd::std_specs::vec::group_vec_axioms;

/// Where a virtual reel's register comes from: a list of cut files merged in
/// order, a single cut file, or an inline register.
pub enum VirtualCut {
    MergeCuts(Vec<String>),
    Cut(String),
    Register(Register),
}

/// The frame list of a virtual reel: an ordered path list, or a keyed list
/// whose keys rename the frames and define the order.
pub enum VirtualFrames {
    RenamedList(Vec<(String, String)>),
    List(Vec<String>),
}

/// An explicitly declared reel: its name, an optional base directory, its
/// frames and its register source.
pub struct VirtualReel {
    pub name: String,
    pub path: Option<String>,
    pub frames: VirtualFrames,
    pub cut: VirtualCut,
}

/// A path joined under a base directory; an absolute path stands alone.
pub open spec fn spec_join(base: Seq<char>, p: Seq<char>) -> Seq<char> {
    if p.len() > 0 && p[0] == '/' {
        p
    } else {
        base + "/"@ + p
    }
}

/// Joins a path under a base directory; an absolute path stands alone.
pub fn join_under(base: &str, p: &str) -> (r: String)
    ensures
        r@ == spec_join(base@, p@),
{
    let pc = crate::text::chars_of(p);
    if pc.len() > 0 && pc[0] == '/' {
        p.to_owned()
    } else {
        let r = concat4(base, "/", p, "");
        proof {
            reveal_strlit("");
            assert(base@ + "/"@ + p@ + ""@ =~= base@ + "/"@ + p@);
        }
        r
    }
}

impl VirtualReel {
    /// Prepends the declared base directory to every relative frame path and
    /// cut path; without a base directory nothing changes.
    pub fn join_path(&mut self)
        ensures
            final(self).name@ == old(self).name@,
            final(self).path == old(self).path,
            match old(self).path {
                None => *final(self) == *old(self),
                Some(base) => {
                    &&& match (old(self).frames, final(self).frames) {
                        (VirtualFrames::List(o), VirtualFrames::List(n)) => n@.len() == o@.len()
                            && forall|i: int| 0 <= i < o@.len() ==> (#[trigger] n@[i])@
                            == spec_join(base@, o@[i]@),
                        (
                            VirtualFrames::RenamedList(o),
                            VirtualFrames::RenamedList(n),
                        ) => n@.len() == o@.len() && forall|i: int| 0 <= i < o@.len() ==> (
                        #[trigger] n@[i]).0@ == o@[i].0@ && n@[i].1@ == spec_join(base@, o@[i].1@),
                        _ => false,
                    }
                    &&& match (old(self).cut, final(self).cut) {
                        (VirtualCut::MergeCuts(o), VirtualCut::MergeCuts(n)) => n@.len()
                            == o@.len() && forall|i: int| 0 <= i < o@.len() ==> (
                        #[trigger] n@[i])@ == spec_join(base@, o@[i]@),
                        (VirtualCut::Cut(o), VirtualCut::Cut(n)) => n@ == spec_join(base@, o@),
                        (VirtualCut::Register(o), VirtualCut::Register(n)) => n@ == o@,
                        _ => false,
                    }
                },
            },
    {
        let base = match &self.path {
            None => {
                return ;
            },
            Some(b) => b.clone(),
        };
        let mut frames = VirtualFrames::List(Vec::new());
        core::mem::swap(&mut frames, &mut self.frames);
        self.frames = match frames {
            VirtualFrames::List(list) => {
                let mut out: Vec<String> = Vec::new();
                let mut i: usize = 0;
                while i < list.len()
                    invariant
                        i <= list@.len(),
                        out@.len() == i,
                        forall|j: int| 0 <= j < i ==> (#[trigger] out@[j])@ == spec_join(
                            base@,
                            list@[j]@,
                        ),
                    decreases list@.len() - i,
                {
                    out.push(join_under(base.as_str(), list[i].as_str()));
                    i += 1;
                }
                VirtualFrames::List(out)
            },
            VirtualFrames::RenamedList(list) => {
                let mut out: Vec<(String, String)> = Vec::new();
                let mut i: usize = 0;
                while i < list.len()
                    invariant
                        i <= list@.len(),
                        out@.len() == i,
                        forall|j: int| 0 <= j < i ==> (#[trigger] out@[j]).0@ == list@[j].0@
                            && out@[j].1@ == spec_join(base@, list@[j].1@),
                    decreases list@.len() - i,
                {
                    out.push((list[i].0.clone(), join_under(base.as_str(), list[i].1.as_str())));
                    i += 1;
                }
                VirtualFrames::RenamedList(out)
            },
        };
        let mut cut = VirtualCut::MergeCuts(Vec::new());
        core::mem::swap(&mut cut, &mut self.cut);
        self.cut = match cut {
            VirtualCut::MergeCuts(list) => {
                let mut out: Vec<String> = Vec::new();
                let mut i: usize = 0;
                while i < list.len()
                    invariant
                        i <= list@.len(),
                        out@.len() == i,
                        forall|j: int| 0 <= j < i ==> (#[trigger] out@[j])@ == spec_join(
                            base@,
                            list@[j]@,
                        ),
                    decreases list@.len() - i,
                {
                    out.push(join_under(base.as_str(), list[i].as_str()));
                    i += 1;
                }
                VirtualCut::MergeCuts(out)
            },
            VirtualCut::Cut(p) => VirtualCut::Cut(join_under(base.as_str(), p.as_str())),
            VirtualCut::Register(r) => VirtualCut::Register(r),
        };
    }
}

} // verus!
