//! The decisions of a bulk walk over the subtree of an object identifier:
//! which names of a reply belong to the walk, where the next request
//! starts, and when the walk is over. Sending the requests and reading the
//! replies is left to the caller, who hands each reply in as plain values.
use vstd::prelude::*;

verus! {

/// `name` lies in the subtree rooted at `prefix`: its first arcs are those
/// of `prefix`.
pub open spec fn in_subtree(prefix: Seq<u32>, name: Seq<u32>) -> bool {
    prefix.len() <= name.len() && name.subrange(0, prefix.len() as int) == prefix
}

/// A name lies in the subtree of `prefix` exactly when it has at least as
/// many arcs as `prefix` and agrees with it on every one of them.
pub proof fn lemma_in_subtree_arcs(prefix: Seq<u32>, name: Seq<u32>)
    ensures
        in_subtree(prefix, name) <==> (prefix.len() <= name.len() && forall|i: int|
            0 <= i < prefix.len() ==> name[i] == prefix[i]),
{
    if prefix.len() <= name.len() {
        if forall|i: int| 0 <= i < prefix.len() ==> name[i] == prefix[i] {
            assert(name.subrange(0, prefix.len() as int) =~= prefix);
        }
        if in_subtree(prefix, name) {
            assert forall|i: int| 0 <= i < prefix.len() implies name[i] == prefix[i] by {
                assert(name.subrange(0, prefix.len() as int)[i] == name[i]);
            }
        }
    }
}

/// Whether `name` starts with the arcs of `prefix`.
pub fn starts_with(name: &[u32], prefix: &[u32]) -> (b: bool)
    ensures
        b == in_subtree(prefix@, name@),
        b == (prefix@.len() <= name@.len() && forall|i: int|
            0 <= i < prefix@.len() ==> name@[i] == prefix@[i]),
{
    proof {
        lemma_in_subtree_arcs(prefix@, name@);
    }
    if prefix.len() > name.len() {
        return false;
    }
    for i in 0..prefix.len()
        invariant
            prefix@.len() <= name@.len(),
            forall|j: int| 0 <= j < i ==> name@[j] == prefix@[j],
    {
        if name[i] != prefix[i] {
            assert(name@.subrange(0, prefix@.len() as int)[i as int] != prefix@[i as int]);
            return false;
        }
    }
    assert(name@.subrange(0, prefix@.len() as int) =~= prefix@);
    true
}

/// One variable binding of a reply: the name, read into its arcs, and the
/// text under which the walk reports it.
pub struct Varbind {
    pub name: Vec<u32>,
    pub text: String,
}

/// The names of the bindings of `batch`, in order.
pub open spec fn names_of(batch: Seq<Varbind>) -> Seq<Seq<u32>> {
    batch.map_values(|b: Varbind| b.name@)
}

/// The texts of the bindings of `batch`, in order.
pub open spec fn texts_of(batch: Seq<Varbind>) -> Seq<Seq<char>> {
    batch.map_values(|b: Varbind| b.text@)
}

/// `n` is the number of names at the front of `names` that lie in the
/// subtree of `prefix`: the first `n` do, and the one after them, if any,
/// does not.
pub open spec fn leading_in_subtree(prefix: Seq<u32>, names: Seq<Seq<u32>>, n: int) -> bool {
    &&& 0 <= n <= names.len()
    &&& forall|i: int| 0 <= i < n ==> in_subtree(prefix, #[trigger] names[i])
    &&& n < names.len() ==> !in_subtree(prefix, names[n])
}

/// The positions, in increasing order, of the names of `names` that lie in
/// the subtree of `prefix`.
pub open spec fn subtree_positions(prefix: Seq<u32>, names: Seq<Seq<u32>>) -> Seq<int>
    decreases names.len(),
{
    if names.len() == 0 {
        Seq::empty()
    } else {
        let init = subtree_positions(prefix, names.drop_last());
        if in_subtree(prefix, names.last()) {
            init.push(names.len() - 1)
        } else {
            init
        }
    }
}

/// A bulk walk of the subtree of one object identifier.
///
/// Each request asks for the names that follow the cursor, which starts at
/// the root of the subtree and always lies in it.
pub struct BulkWalk {
    prefix: Vec<u32>,
    cursor: Vec<u32>,
    lines: Vec<String>,
    finished: bool,
}

impl BulkWalk {
    #[verifier::type_invariant]
    spec fn cursor_in_subtree(self) -> bool {
        in_subtree(self.prefix@, self.cursor@)
    }

    /// The root of the walked subtree.
    pub closed spec fn root(&self) -> Seq<u32> {
        self.prefix@
    }

    /// The name after which the next request asks.
    pub closed spec fn position(&self) -> Seq<u32> {
        self.cursor@
    }

    /// The texts of the names reported so far, in order.
    pub closed spec fn reported(&self) -> Seq<Seq<char>> {
        self.lines@.map_values(|l: String| l@)
    }

    /// Whether the walk has left the subtree.
    pub closed spec fn done(&self) -> bool {
        self.finished
    }

    /// A walk of the subtree rooted at `prefix`, before its first request.
    pub fn new(prefix: &[u32]) -> (w: BulkWalk)
        ensures
            w.root() == prefix@,
            w.position() == prefix@,
            w.reported() == Seq::<Seq<char>>::empty(),
            !w.done(),
    {
        let p = vstd::slice::slice_to_vec(prefix);
        let c = vstd::slice::slice_to_vec(prefix);
        assert(c@.subrange(0, p@.len() as int) =~= p@);
        let w = BulkWalk { prefix: p, cursor: c, lines: Vec::new(), finished: false };
        assert(w.reported() =~= Seq::<Seq<char>>::empty());
        w
    }

    /// The name from which the next request asks for the following ones.
    pub fn request_oid(&self) -> (oid: &[u32])
        ensures
            oid@ == self.position(),
            in_subtree(self.root(), oid@),
    {
        proof {
            use_type_invariant(self);
        }
        self.cursor.as_slice()
    }

    /// Whether the walk is over.
    pub fn is_finished(&self) -> (b: bool)
        ensures
            b == self.done(),
    {
        self.finished
    }

    /// The texts of the names reported so far, in order.
    pub fn into_lines(self) -> (lines: Vec<String>)
        ensures
            lines@.map_values(|l: String| l@) == self.reported(),
    {
        self.lines
    }

    /// Takes in a reply whose bindings are `batch`, in the order received.
    /// The names at the front of the reply that lie in the subtree are
    /// reported, in order, and the next request starts from the last of
    /// them; the first name outside the subtree ends the walk, and what
    /// follows it is not looked at. A reply with no bindings changes
    /// nothing. Returns how many bindings were reported.
    pub fn on_response(&mut self, batch: &Vec<Varbind>) -> (accepted: usize)
        requires
            !old(self).done(),
        ensures
            leading_in_subtree(old(self).root(), names_of(batch@), accepted as int),
            accepted <= batch@.len(),
            forall|j: int|
                0 <= j < accepted ==> old(self).root().len() <= (#[trigger] batch@[j]).name@.len()
                    && forall|k: int|
                    0 <= k < old(self).root().len() ==> batch@[j].name@[k] == old(self).root()[k],
            accepted < batch@.len() ==> !(old(self).root().len() <= batch@[accepted as int].name@.len()
                && forall|k: int|
                0 <= k < old(self).root().len() ==> batch@[accepted as int].name@[k] == old(
                    self,
                ).root()[k]),
            final(self).root() == old(self).root(),
            final(self).reported() == old(self).reported() + texts_of(batch@).take(
                accepted as int,
            ),
            final(self).done() == (accepted < batch@.len()),
            final(self).position() == (if accepted > 0 {
                batch@[accepted - 1].name@
            } else {
                old(self).position()
            }),
            in_subtree(final(self).root(), final(self).position()),
    {
        proof {
            use_type_invariant(&*self);
        }
        let ghost old_lines = self.reported();
        let mut i: usize = 0;
        while i < batch.len()
            invariant_except_break
                self.root() == old(self).root(),
                !self.done(),
                0 <= i <= batch@.len(),
                forall|j: int| 0 <= j < i ==> in_subtree(self.root(), #[trigger] names_of(batch@)[j]),
                self.reported() == old_lines + texts_of(batch@).take(i as int),
                self.position() == (if i > 0 {
                    batch@[i - 1].name@
                } else {
                    old(self).position()
                }),
                in_subtree(self.root(), self.position()),
            ensures
                self.root() == old(self).root(),
                0 <= i <= batch@.len(),
                forall|j: int| 0 <= j < i ==> in_subtree(self.root(), #[trigger] names_of(batch@)[j]),
                i < batch@.len() ==> !in_subtree(self.root(), names_of(batch@)[i as int]),
                self.done() == (i < batch@.len()),
                self.reported() == old_lines + texts_of(batch@).take(i as int),
                self.position() == (if i > 0 {
                    batch@[i - 1].name@
                } else {
                    old(self).position()
                }),
                in_subtree(self.root(), self.position()),
            decreases batch@.len() - i,
        {
            let name = batch[i].name.as_slice();
            assert(names_of(batch@)[i as int] == name@);
            if !starts_with(name, self.prefix.as_slice()) {
                self.finished = true;
                break;
            }
            let ghost before = self.reported();
            self.cursor = batch[i].name.clone();
            let mut lines: Vec<String> = Vec::new();
            std::mem::swap(&mut lines, &mut self.lines);
            lines.push(batch[i].text.clone());
            self.lines = lines;
            proof {
                assert(self.reported() =~= before.push(batch@[i as int].text@));
                assert(texts_of(batch@).take(i + 1) =~= texts_of(batch@).take(i as int).push(
                    batch@[i as int].text@,
                ));
            }
            i = i + 1;
        }
        proof {
            let root = self.root();
            assert forall|j: int| 0 <= j < i implies root.len() <= (#[trigger] batch@[j]).name@.len()
                && forall|k: int| 0 <= k < root.len() ==> batch@[j].name@[k] == root[k] by {
                assert(in_subtree(root, names_of(batch@)[j]));
                lemma_in_subtree_arcs(root, batch@[j].name@);
            }
            if i < batch@.len() {
                lemma_in_subtree_arcs(root, batch@[i as int].name@);
            }
        }
        i
    }

    /// Takes in a reply whose bindings are `batch`, in the order received,
    /// keeping those whose names lie in the subtree, wherever they stand.
    /// When none does, the walk is over; otherwise the next request starts
    /// from the last one kept. Returns the positions kept, in increasing
    /// order. Every name must have at least as many arcs as the root.
    pub fn on_filtered_response(&mut self, batch: &Vec<Varbind>) -> (kept: Vec<usize>)
        requires
            !old(self).done(),
            forall|i: int|
                0 <= i < batch@.len() ==> old(self).root().len() <= (#[trigger] batch@[i]).name@.len(),
        ensures
            kept@.map_values(|k: usize| k as int) == subtree_positions(
                old(self).root(),
                names_of(batch@),
            ),
            forall|k: int| 0 <= k < kept@.len() ==> #[trigger] kept@[k] < batch@.len(),
            forall|k: int, l: int| 0 <= k < l < kept@.len() ==> #[trigger] kept@[k] < #[trigger] kept@[l],
            forall|i: int|
                0 <= i < batch@.len() ==> (kept@.contains(i as usize) <==> (old(self).root().len()
                    <= (#[trigger] batch@[i]).name@.len() && forall|j: int|
                    0 <= j < old(self).root().len() ==> batch@[i].name@[j] == old(self).root()[j])),
            final(self).root() == old(self).root(),
            final(self).reported() == old(self).reported(),
            final(self).done() == (kept@.len() == 0),
            final(self).position() == (if kept@.len() > 0 {
                batch@[kept@.last() as int].name@
            } else {
                old(self).position()
            }),
            in_subtree(final(self).root(), final(self).position()),
    {
        proof {
            use_type_invariant(&*self);
        }
        let mut kept: Vec<usize> = Vec::new();
        let ghost names = names_of(batch@);
        for i in 0..batch.len()
            invariant
                names == names_of(batch@),
                self.root() == old(self).root(),
                self.reported() == old(self).reported(),
                self.done() == old(self).done(),
                self.position() == old(self).position(),
                kept@.map_values(|k: usize| k as int) == subtree_positions(
                    self.root(),
                    names.take(i as int),
                ),
                forall|j: int| 0 <= j < kept@.len() ==> #[trigger] kept@[j] < i,
        {
            proof {
                assert(names.take(i + 1).drop_last() =~= names.take(i as int));
            }
            if starts_with(batch[i].name.as_slice(), self.prefix.as_slice()) {
                kept.push(i);
                proof {
                    assert(kept@.map_values(|k: usize| k as int) =~= subtree_positions(
                        self.root(),
                        names.take(i as int),
                    ).push(i as int));
                }
            }
        }
        proof {
            assert(names.take(batch@.len() as int) =~= names);
            let root = self.root();
            let m = kept@.map_values(|k: usize| k as int);
            lemma_subtree_positions_arcs(root, names);
            assert forall|k: int| 0 <= k < kept@.len() implies #[trigger] kept@[k] < batch@.len() by {
                assert(m[k] == kept@[k] as int);
            }
            assert forall|k: int, l: int| 0 <= k < l < kept@.len() implies #[trigger] kept@[k]
                < #[trigger] kept@[l] by {
                assert(m[k] == kept@[k] as int && m[l] == kept@[l] as int);
            }
            assert forall|i: int| 0 <= i < batch@.len() implies (kept@.contains(i as usize) <==> (
            root.len() <= (#[trigger] batch@[i]).name@.len() && forall|j: int|
                0 <= j < root.len() ==> batch@[i].name@[j] == root[j])) by {
                assert(names[i] == batch@[i].name@);
                if kept@.contains(i as usize) {
                    let k = choose|k: int| 0 <= k < kept@.len() && kept@[k] == i as usize;
                    assert(m[k] == i);
                }
                if m.contains(i) {
                    let k = choose|k: int| 0 <= k < m.len() && m[k] == i;
                    assert(kept@[k] == i as usize);
                }
            }
        }
        if kept.len() == 0 {
            self.finished = true;
        } else {
            let last = kept[kept.len() - 1];
            proof {
                let m = kept@.map_values(|k: usize| k as int);
                assert(m[m.len() - 1] == last as int);
                lemma_positions_in_subtree(self.root(), names);
            }
            self.cursor = batch[last].name.clone();
        }
        kept
    }
}

/// Every position that `subtree_positions` gives holds a name in the subtree.
proof fn lemma_positions_in_subtree(prefix: Seq<u32>, names: Seq<Seq<u32>>)
    ensures
        forall|j: int|
            0 <= j < subtree_positions(prefix, names).len() ==> {
                let p = #[trigger] subtree_positions(prefix, names)[j];
                0 <= p < names.len() && in_subtree(prefix, names[p])
            },
    decreases names.len(),
{
    if names.len() > 0 {
        let init = names.drop_last();
        lemma_positions_in_subtree(prefix, init);
        assert forall|j: int| 0 <= j < subtree_positions(prefix, init).len() implies {
            let p = #[trigger] subtree_positions(prefix, init)[j];
            0 <= p < names.len() && in_subtree(prefix, names[p])
        } by {
            let p = subtree_positions(prefix, init)[j];
            assert(names[p] == init[p]);
        }
    }
}

/// The positions that `subtree_positions` gives are in range and in
/// increasing order, and a position is among them exactly when the name
/// there agrees with `prefix` on every arc of `prefix`, whatever the other
/// names are.
pub proof fn lemma_subtree_positions_arcs(prefix: Seq<u32>, names: Seq<Seq<u32>>)
    ensures
        forall|k: int|
            0 <= k < subtree_positions(prefix, names).len() ==> 0 <= #[trigger] subtree_positions(
                prefix,
                names,
            )[k] < names.len(),
        forall|k: int, l: int|
            0 <= k < l < subtree_positions(prefix, names).len() ==> #[trigger] subtree_positions(
                prefix,
                names,
            )[k] < #[trigger] subtree_positions(prefix, names)[l],
        forall|i: int|
            0 <= i < names.len() ==> (subtree_positions(prefix, names).contains(i) <==> (
            prefix.len() <= (#[trigger] names[i]).len() && forall|j: int|
                0 <= j < prefix.len() ==> names[i][j] == prefix[j])),
    decreases names.len(),
{
    if names.len() > 0 {
        let init = names.drop_last();
        let last = names.len() - 1;
        let q = subtree_positions(prefix, init);
        let p = subtree_positions(prefix, names);
        lemma_subtree_positions_arcs(prefix, init);
        assert forall|i: int|
            0 <= i < names.len() implies (p.contains(i) <==> (prefix.len() <= (
            #[trigger] names[i]).len() && forall|j: int|
                0 <= j < prefix.len() ==> names[i][j] == prefix[j])) by {
            lemma_in_subtree_arcs(prefix, names[i]);
            if i < last {
                assert(names[i] == init[i]);
                if p.contains(i) {
                    let k = choose|k: int| 0 <= k < p.len() && p[k] == i;
                    if k < q.len() {
                        assert(q[k] == i);
                    }
                }
                if q.contains(i) {
                    let k = choose|k: int| 0 <= k < q.len() && q[k] == i;
                    assert(p[k] == i);
                }
            } else {
                if in_subtree(prefix, names[last]) {
                    assert(p[p.len() - 1] == last);
                } else {
                    if p.contains(i) {
                        let k = choose|k: int| 0 <= k < p.len() && p[k] == i;
                        assert(q[k] < init.len());
                    }
                }
            }
        }
    }
}

/// Where the names of a reply that lie in the subtree all come before those
/// that do not, the walk that stops at the first name outside the subtree
/// takes in exactly the names that the filtering walk keeps: the first `n`.
pub proof fn lemma_stopping_and_filtering_agree(
    prefix: Seq<u32>,
    names: Seq<Seq<u32>>,
    n: int,
)
    requires
        forall|i: int, j: int|
            0 <= i < j < names.len() && in_subtree(prefix, #[trigger] names[j]) ==> in_subtree(
                prefix,
                #[trigger] names[i],
            ),
        leading_in_subtree(prefix, names, n),
    ensures
        subtree_positions(prefix, names) == Seq::new(n as nat, |i: int| i),
    decreases names.len(),
{
    if names.len() > 0 {
        let init = names.drop_last();
        let last = names.len() - 1;
        if in_subtree(prefix, names[last]) {
            assert forall|i: int| 0 <= i < last implies in_subtree(prefix, #[trigger] init[i]) by {
                assert(init[i] == names[i]);
            }
            assert(n == names.len()) by {
                if n < names.len() {
                    assert(in_subtree(prefix, names[n]));
                }
            }
            lemma_stopping_and_filtering_agree(prefix, init, last);
        } else {
            assert(n <= last);
            assert forall|i: int, j: int|
                0 <= i < j < init.len() && in_subtree(prefix, #[trigger] init[j]) implies in_subtree(
                prefix,
                #[trigger] init[i],
            ) by {
                assert(init[i] == names[i] && init[j] == names[j]);
            }
            assert forall|i: int| 0 <= i < n implies in_subtree(prefix, #[trigger] init[i]) by {
                assert(init[i] == names[i]);
            }
            if n < last {
                assert(init[n] == names[n]);
            }
            lemma_stopping_and_filtering_agree(prefix, init, n);
        }
    }
    assert(subtree_positions(prefix, names) =~= Seq::new(n as nat, |i: int| i));
}

} // verus!
