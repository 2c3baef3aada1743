use vstd::prelude::*;

verus! {

/// The clean name attached to a terminal trie node: either one canonical
/// label, or an ordered sequence of labels that are all emitted for a match.
#[derive(Debug, Clone, PartialEq)]
pub enum Payload {
    Scalar(String),
    Multi(Vec<String>),
}

impl Payload {
    /// The labels this payload emits, in order.
    pub open spec fn elements(self) -> Seq<Seq<char>> {
        match self {
            Payload::Scalar(s) => seq![s@],
            Payload::Multi(v) => Seq::new(v@.len(), |i: int| v@[i]@),
        }
    }

    /// The label used when the payload is rendered as a single string: the
    /// scalar itself, or the first element of a sequence (empty if none).
    pub open spec fn first_name(self) -> Seq<char> {
        match self {
            Payload::Scalar(s) => s@,
            Payload::Multi(v) => if v@.len() > 0 {
                v@[0]@
            } else {
                Seq::<char>::empty()
            },
        }
    }

    /// Same variant and same labels: all a caller can observe of a payload.
    pub open spec fn equiv(self, other: Payload) -> bool {
        &&& (self is Scalar <==> other is Scalar)
        &&& self.elements() == other.elements()
    }

    /// A copy observably equal to the original.
    pub fn duplicate(&self) -> (r: Payload)
        ensures
            r.equiv(*self),
    {
        match self {
            Payload::Scalar(s) => {
                let c = s.clone();
                let r = Payload::Scalar(c);
                proof {
                    assert(r.elements() =~= self.elements());
                }
                r
            },
            Payload::Multi(v) => {
                let mut out: Vec<String> = Vec::new();
                let n = v.len();
                let mut i: usize = 0;
                while i < n
                    invariant
                        n == v@.len(),
                        i <= n,
                        out@.len() == i,
                        forall|k: int| 0 <= k < i ==> out@[k] == v@[k],
                    decreases n - i,
                {
                    out.push(v[i].clone());
                    i += 1;
                }
                proof {
                    assert(out@ =~= v@);
                }
                let r = Payload::Multi(out);
                proof {
                    assert(r.elements() =~= self.elements());
                }
                r
            },
        }
    }

    /// The labels as a vector, one per element, in order.
    pub fn labels(&self) -> (r: Vec<String>)
        ensures
            r@.len() == self.elements().len(),
            forall|k: int| 0 <= k < r@.len() ==> (#[trigger] r@[k])@ == self.elements()[k],
    {
        match self {
            Payload::Scalar(s) => {
                let mut out: Vec<String> = Vec::new();
                out.push(s.clone());
                proof {
                    assert(self.elements()[0] == s@);
                }
                out
            },
            Payload::Multi(v) => {
                let mut out: Vec<String> = Vec::new();
                let n = v.len();
                let mut i: usize = 0;
                while i < n
                    invariant
                        n == v@.len(),
                        i <= n,
                        out@.len() == i,
                        forall|k: int| 0 <= k < i ==> (#[trigger] out@[k])@ == v@[k]@,
                    decreases n - i,
                {
                    out.push(v[i].clone());
                    i += 1;
                }
                proof {
                    assert(self.elements().len() == v@.len());
                    assert(forall|k: int|
                        0 <= k < v@.len() ==> self.elements()[k] == (#[trigger] v@[k])@);
                }
                out
            },
        }
    }

    pub fn render_first(&self) -> (r: String)
        ensures
            r@ == self.first_name(),
    {
        match self {
            Payload::Scalar(s) => s.clone(),
            Payload::Multi(v) => {
                if v.len() > 0 {
                    v[0].clone()
                } else {
                    String::new()
                }
            },
        }
    }
}

} // verus!
