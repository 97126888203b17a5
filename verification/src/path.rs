use vstd::prelude::*;

verus! {

use vstd::slice::{slice_subrange, slice_to_vec};
use vstd::string::StringSliceAdditionalSpecFns;

// A vault path is an absolute path into the directory tree. It is held
// as its list of components: the byte strings between the separators,
// with empty segments dropped. Names are matched byte-exactly on their
// UTF-8 encoding.

/// The path separator byte, `/`.
pub open spec fn sep() -> u8 {
    47u8
}

/// The components of the path bytes from `pos` on, with the current
/// segment starting at `start`.
pub open spec fn spec_split_from(bytes: Seq<u8>, pos: int, start: int) -> Seq<Seq<u8>>
    decreases bytes.len() - pos,
{
    if pos < 0 || start < 0 || start > pos || pos >= bytes.len() {
        if 0 <= start <= pos && pos == bytes.len() && start < pos {
            seq![bytes.subrange(start, pos)]
        } else {
            Seq::<Seq<u8>>::empty()
        }
    } else if bytes[pos] == sep() {
        if start < pos {
            seq![bytes.subrange(start, pos)] + spec_split_from(bytes, pos + 1, pos + 1)
        } else {
            spec_split_from(bytes, pos + 1, pos + 1)
        }
    } else {
        spec_split_from(bytes, pos + 1, start)
    }
}

/// The components of a path's bytes: the non-empty stretches between
/// separator bytes.
pub open spec fn spec_components(bytes: Seq<u8>) -> Seq<Seq<u8>> {
    spec_split_from(bytes, 0, 0)
}

/// The current-directory component, `.`.
pub open spec fn dot() -> Seq<u8> {
    seq![46u8]
}

/// The parent-directory component, `..`.
pub open spec fn dot_dot() -> Seq<u8> {
    seq![46u8, 46u8]
}

/// A path text is accepted when it is absolute and its components name
/// neither the current nor the parent directory.
pub open spec fn spec_valid_path(bytes: Seq<u8>) -> bool {
    &&& bytes.len() > 0
    &&& bytes[0] == sep()
    &&& forall|i: int| 0 <= i < spec_components(bytes).len()
        ==> #[trigger] spec_components(bytes)[i] != dot() && spec_components(bytes)[i] != dot_dot()
}

/// The view of an exec component list.
pub open spec fn comps_view(cs: Seq<Vec<u8>>) -> Seq<Seq<u8>> {
    cs.map_values(|c: Vec<u8>| c@)
}

/// Splits path bytes into components.
fn split_path(bytes: &[u8]) -> (r: Vec<Vec<u8>>)
    ensures
        comps_view(r@) == spec_components(bytes@),
{
    let mut out: Vec<Vec<u8>> = Vec::new();
    let mut start: usize = 0;
    let mut pos: usize = 0;
    while pos < bytes.len()
        invariant
            0 <= start <= pos <= bytes@.len(),
            spec_components(bytes@) == comps_view(out@) + spec_split_from(
                bytes@,
                pos as int,
                start as int,
            ),
        decreases bytes@.len() - pos,
    {
        if bytes[pos] == 47 {
            if start < pos {
                let c = slice_to_vec(slice_subrange(bytes, start, pos));
                out.push(c);
                proof {
                    assert(comps_view(out@) =~= comps_view(old_seq_push(out@)) + seq![
                        bytes@.subrange(start as int, pos as int),
                    ]) by {
                        assert(forall|k: int| 0 <= k < out@.len() - 1
                            ==> (#[trigger] out@[k])@ == comps_view(out@)[k]);
                    }
                }
            }
            start = pos + 1;
        }
        pos = pos + 1;
        proof {
            assert(spec_components(bytes@) =~= comps_view(out@) + spec_split_from(
                bytes@,
                pos as int,
                start as int,
            ));
        }
    }
    if start < bytes.len() {
        let c = slice_to_vec(slice_subrange(bytes, start, bytes.len()));
        out.push(c);
    }
    proof {
        assert(comps_view(out@) =~= spec_components(bytes@));
    }
    out
}

/// The sequence before the last push.
pub open spec fn old_seq_push(cs: Seq<Vec<u8>>) -> Seq<Vec<u8>> {
    cs.drop_last()
}

/// Immutable validated absolute path to a node in the vault.
pub struct VaultPath {
    components: Vec<Vec<u8>>,
}

impl VaultPath {
    /// The component names, as byte strings.
    pub closed spec fn components_v(&self) -> Seq<Seq<u8>> {
        comps_view(self.components@)
    }

    /// Validates a path text and splits it into components. Accepts
    /// exactly the absolute paths free of `.` and `..` components.
    pub fn new(path: &str) -> (r: Option<VaultPath>)
        ensures
            r is Some <==> spec_valid_path(path.spec_bytes()),
            r is Some ==> r.unwrap().components_v() == spec_components(path.spec_bytes()),
    {
        let bytes = path.as_bytes();
        if bytes.len() == 0 {
            return None;
        }
        if bytes[0] != 47 {
            return None;
        }
        let comps = split_path(bytes);
        let ghost cv = spec_components(path.spec_bytes());
        let mut i: usize = 0;
        while i < comps.len()
            invariant
                0 <= i <= comps@.len(),
                comps_view(comps@) == cv,
                cv == spec_components(path.spec_bytes()),
                path.spec_bytes().len() > 0 && path.spec_bytes()[0] == sep(),
                cv.len() == comps@.len(),
                forall|k: int| 0 <= k < i ==> #[trigger] cv[k] != dot() && cv[k] != dot_dot(),
            decreases comps@.len() - i,
        {
            let c = &comps[i];
            if c.len() == 1 && c[0] == 46 {
                proof {
                    assert(cv[i as int] =~= dot());
                }
                return None;
            }
            if c.len() == 2 && c[0] == 46 && c[1] == 46 {
                proof {
                    assert(cv[i as int] =~= dot_dot());
                }
                return None;
            }
            proof {
                assert(cv[i as int] == comps@[i as int]@);
                assert(cv[i as int] != dot() && cv[i as int] != dot_dot()) by {
                    if comps@[i as int]@.len() == 1 {
                        assert(comps@[i as int]@[0] != 46);
                    }
                    if comps@[i as int]@.len() == 2 {
                        assert(comps@[i as int]@[0] != 46 || comps@[i as int]@[1] != 46);
                    }
                }
            }
            i += 1;
        }
        Some(VaultPath { components: comps })
    }

    /// The path one level up; the root has no parent.
    pub fn parent(&self) -> (r: Option<VaultPath>)
        ensures
            r is Some <==> self.components_v().len() > 0,
            r is Some ==> r.unwrap().components_v() == self.components_v().drop_last(),
    {
        if self.components.len() == 0 {
            return None;
        }
        let mut cs: Vec<Vec<u8>> = Vec::new();
        let mut i: usize = 0;
        while i < self.components.len() - 1
            invariant
                self.components@.len() > 0,
                0 <= i <= self.components@.len() - 1,
                cs@.len() == i,
                forall|k: int| 0 <= k < i ==> (#[trigger] cs@[k])@ == self.components@[k]@,
            decreases self.components@.len() - 1 - i,
        {
            cs.push(slice_to_vec(self.components[i].as_slice()));
            i += 1;
        }
        proof {
            assert(comps_view(cs@) =~= comps_view(self.components@).drop_last());
        }
        Some(VaultPath { components: cs })
    }

    /// The component names, as byte strings.
    pub fn components(&self) -> (r: &Vec<Vec<u8>>)
        ensures
            comps_view(r@) == self.components_v(),
    {
        &self.components
    }

    /// The last component; the root has none.
    pub fn file_name(&self) -> (r: Option<Vec<u8>>)
        ensures
            r is Some <==> self.components_v().len() > 0,
            r is Some ==> r.unwrap()@ == self.components_v().last(),
    {
        if self.components.len() == 0 {
            return None;
        }
        Some(slice_to_vec(self.components[self.components.len() - 1].as_slice()))
    }

    /// The canonical text of the path, as UTF-8 bytes: a separator before
    /// each component, or the bare separator for the root.
    pub fn to_str(&self) -> (r: Vec<u8>)
        ensures
            r@ == (if self.components_v().len() == 0 {
                seq![sep()]
            } else {
                spec_joined(self.components_v())
            }),
    {
        let ghost cv = self.components_v();
        if self.components.len() == 0 {
            let mut out: Vec<u8> = Vec::new();
            out.push(47);
            proof {
                assert(out@ =~= seq![sep()]);
            }
            return out;
        }
        let mut out: Vec<u8> = Vec::new();
        let mut i: usize = 0;
        while i < self.components.len()
            invariant
                0 <= i <= self.components@.len(),
                cv == self.components_v(),
                cv.len() == self.components@.len(),
                out@ == spec_joined_prefix(cv, i as int),
            decreases self.components@.len() - i,
        {
            out.push(47);
            let mut j: usize = 0;
            let c = &self.components[i];
            while j < c.len()
                invariant
                    0 <= j <= c@.len(),
                    0 <= i < self.components@.len(),
                    c == &self.components@[i as int],
                    cv == self.components_v(),
                    cv.len() == self.components@.len(),
                    out@ == spec_joined_prefix(cv, i as int) + seq![sep()] + c@.take(j as int),
                decreases c@.len() - j,
            {
                out.push(c[j]);
                proof {
                    assert(out@ =~= spec_joined_prefix(cv, i as int) + seq![sep()] + c@.take(
                        j + 1,
                    ));
                }
                j += 1;
            }
            proof {
                assert(c@.take(c@.len() as int) =~= c@);
                assert(c@ == cv[i as int]);
                lemma_joined_prefix_snoc(cv, i as int);
                assert(out@ =~= spec_joined_prefix(cv, i + 1));
            }
            i += 1;
        }
        proof {
            lemma_joined_prefix_full(cv);
        }
        out
    }
}

/// The text of the first `n` components: a separator before each.
pub open spec fn spec_joined_prefix(cs: Seq<Seq<u8>>, n: int) -> Seq<u8> {
    spec_joined(cs.take(n))
}

/// The text of a component list: a separator before each component.
pub open spec fn spec_joined(cs: Seq<Seq<u8>>) -> Seq<u8>
    decreases cs.len(),
{
    if cs.len() == 0 {
        Seq::<u8>::empty()
    } else {
        seq![sep()] + cs[0] + spec_joined(cs.skip(1))
    }
}

proof fn lemma_joined_split(cs: Seq<Seq<u8>>, i: int)
    requires
        0 <= i <= cs.len(),
    ensures
        spec_joined(cs) == spec_joined(cs.take(i)) + spec_joined(cs.skip(i)),
    decreases i,
{
    if i == 0 {
        assert(cs.take(0) =~= Seq::<Seq<u8>>::empty());
        assert(cs.skip(0) =~= cs);
        assert(spec_joined(cs) =~= Seq::<u8>::empty() + spec_joined(cs));
    } else {
        let rest = cs.skip(1);
        lemma_joined_split(rest, i - 1);
        assert(cs.take(i)[0] == cs[0]);
        assert(cs.take(i).skip(1) =~= rest.take(i - 1));
        assert(cs.skip(i) =~= rest.skip(i - 1));
        assert(spec_joined(cs.take(i)) == seq![sep()] + cs[0] + spec_joined(rest.take(i - 1)));
        assert((seq![sep()] + cs[0] + spec_joined(rest.take(i - 1))) + spec_joined(
            rest.skip(i - 1),
        ) =~= seq![sep()] + cs[0] + (spec_joined(rest.take(i - 1)) + spec_joined(rest.skip(i - 1))));
    }
}

proof fn lemma_joined_prefix_snoc(cs: Seq<Seq<u8>>, i: int)
    requires
        0 <= i < cs.len(),
    ensures
        spec_joined_prefix(cs, i + 1) == spec_joined_prefix(cs, i) + seq![sep()] + cs[i],
{
    let t = cs.take(i + 1);
    lemma_joined_split(t, i);
    assert(t.take(i) =~= cs.take(i));
    assert(t.skip(i) =~= seq![cs[i]]);
    assert(spec_joined(seq![cs[i]]) == seq![sep()] + cs[i] + spec_joined(seq![cs[i]].skip(1)));
    assert(seq![cs[i]].skip(1) =~= Seq::<Seq<u8>>::empty());
    assert(spec_joined(cs.take(i)) + (seq![sep()] + cs[i] + Seq::<u8>::empty()) =~= spec_joined(
        cs.take(i),
    ) + seq![sep()] + cs[i]);
}

proof fn lemma_joined_prefix_full(cs: Seq<Seq<u8>>)
    ensures
        spec_joined_prefix(cs, cs.len() as int) == spec_joined(cs),
{
    assert(cs.take(cs.len() as int) =~= cs);
}

} // verus!
