//! Which bindings of a reply are printed: those whose encoded name lies
//! under the interface descriptions, 1.3.6.1.2.1.2.2.1.2.
use vstd::prelude::*;

verus! {

/// The first bytes of the encoded name of every interface description:
/// 1.3.6.1.2.1.2.2.1.2, whose first two arcs share the byte 43.
pub const IF_DESCR_BER: [u8; 9] = [43, 6, 1, 2, 1, 2, 2, 1, 2];

/// The bytes of `IF_DESCR_BER`.
pub open spec fn if_descr_ber() -> Seq<u8> {
    seq![43u8, 6u8, 1u8, 2u8, 1u8, 2u8, 2u8, 1u8, 2u8]
}

/// The encoded name `raw` starts with the bytes of `if_descr_ber()`.
pub open spec fn under_if_descr(raw: Seq<u8>) -> bool {
    raw.subrange(0, 9) == if_descr_ber()
}

/// The positions, in increasing order, of the encoded names of `raws` that
/// lie under the interface descriptions.
pub open spec fn if_descr_positions_of(raws: Seq<Seq<u8>>) -> Seq<int>
    decreases raws.len(),
{
    if raws.len() == 0 {
        Seq::empty()
    } else {
        let init = if_descr_positions_of(raws.drop_last());
        if under_if_descr(raws.last()) {
            init.push(raws.len() - 1)
        } else {
            init
        }
    }
}

/// An encoded name of at least nine bytes lies under the interface
/// descriptions exactly when its first nine bytes are 43, 6, 1, 2, 1, 2, 2,
/// 1, 2, every one of them compared.
pub proof fn lemma_under_if_descr_bytes(raw: Seq<u8>)
    requires
        raw.len() >= 9,
    ensures
        under_if_descr(raw) <==> (raw[0] == 43 && raw[1] == 6 && raw[2] == 1 && raw[3] == 2
            && raw[4] == 1 && raw[5] == 2 && raw[6] == 2 && raw[7] == 1 && raw[8] == 2),
{
    let s = raw.subrange(0, 9);
    assert(s[0] == raw[0] && s[1] == raw[1] && s[2] == raw[2] && s[3] == raw[3] && s[4] == raw[4]
        && s[5] == raw[5] && s[6] == raw[6] && s[7] == raw[7] && s[8] == raw[8]);
    if raw[0] == 43 && raw[1] == 6 && raw[2] == 1 && raw[3] == 2 && raw[4] == 1 && raw[5] == 2
        && raw[6] == 2 && raw[7] == 1 && raw[8] == 2 {
        assert(s =~= if_descr_ber());
    }
}

/// The positions that `if_descr_positions_of` gives are in range and in
/// increasing order, and, for names of at least nine bytes, a position is
/// among them exactly when the first nine bytes of the name there are 43, 6,
/// 1, 2, 1, 2, 2, 1, 2, whatever the other names are.
pub proof fn lemma_if_descr_positions_bytes(raws: Seq<Seq<u8>>)
    requires
        forall|i: int| 0 <= i < raws.len() ==> (#[trigger] raws[i]).len() >= 9,
    ensures
        forall|k: int|
            0 <= k < if_descr_positions_of(raws).len() ==> 0 <= #[trigger] if_descr_positions_of(
                raws,
            )[k] < raws.len(),
        forall|k: int, l: int|
            0 <= k < l < if_descr_positions_of(raws).len() ==> #[trigger] if_descr_positions_of(
                raws,
            )[k] < #[trigger] if_descr_positions_of(raws)[l],
        forall|i: int|
            0 <= i < raws.len() ==> (if_descr_positions_of(raws).contains(i) <==> ((
            #[trigger] raws[i])[0] == 43 && raws[i][1] == 6 && raws[i][2] == 1 && raws[i][3] == 2
                && raws[i][4] == 1 && raws[i][5] == 2 && raws[i][6] == 2 && raws[i][7] == 1
                && raws[i][8] == 2)),
    decreases raws.len(),
{
    if raws.len() > 0 {
        let init = raws.drop_last();
        let last = raws.len() - 1;
        let q = if_descr_positions_of(init);
        let p = if_descr_positions_of(raws);
        assert forall|i: int| 0 <= i < init.len() implies (#[trigger] init[i]).len() >= 9 by {
            assert(init[i] == raws[i]);
        }
        lemma_if_descr_positions_bytes(init);
        assert forall|i: int| 0 <= i < raws.len() implies (p.contains(i) <==> ((
        #[trigger] raws[i])[0] == 43 && raws[i][1] == 6 && raws[i][2] == 1 && raws[i][3] == 2
            && raws[i][4] == 1 && raws[i][5] == 2 && raws[i][6] == 2 && raws[i][7] == 1
            && raws[i][8] == 2)) by {
            lemma_under_if_descr_bytes(raws[i]);
            if i < last {
                assert(raws[i] == init[i]);
                if p.contains(i) {
                    let k = choose|k: int| 0 <= k < p.len() && p[k] == i;
                    if k < q.len() {
                        assert(q[k] == i);
                    }
                }
                if q.contains(i) {
                    let k = choose|k: int| 0 <= k < q.len() && q[k] == i;
                    assert(p[k] == i);
                }
            } else {
                if under_if_descr(raws[last]) {
                    assert(p[p.len() - 1] == last);
                } else {
                    if p.contains(i) {
                        let k = choose|k: int| 0 <= k < p.len() && p[k] == i;
                        assert(q[k] < init.len());
                    }
                }
            }
        }
    }
}

/// Whether the encoded name `raw`, of at least nine bytes, starts with those
/// of `IF_DESCR_BER`.
fn is_under_if_descr(raw: &[u8]) -> (b: bool)
    requires
        raw@.len() >= 9,
    ensures
        b == under_if_descr(raw@),
{
    let prefix = IF_DESCR_BER;
    assert(prefix@ =~= if_descr_ber());
    for i in 0..9
        invariant
            raw@.len() >= 9,
            prefix@ == if_descr_ber(),
            forall|j: int| 0 <= j < i ==> raw@[j] == if_descr_ber()[j],
    {
        if raw[i] != prefix[i] {
            assert(raw@.subrange(0, 9)[i as int] != if_descr_ber()[i as int]);
            return false;
        }
    }
    assert(raw@.subrange(0, 9) =~= if_descr_ber());
    true
}

/// The positions, in increasing order, of the encoded names of `raws` that
/// lie under the interface descriptions. Every name must have at least nine
/// bytes.
pub fn if_descr_positions(raws: &Vec<Vec<u8>>) -> (kept: Vec<usize>)
    requires
        forall|i: int| 0 <= i < raws@.len() ==> (#[trigger] raws@[i])@.len() >= 9,
    ensures
        kept@.map_values(|k: usize| k as int) == if_descr_positions_of(
            raws@.map_values(|r: Vec<u8>| r@),
        ),
        forall|k: int| 0 <= k < kept@.len() ==> #[trigger] kept@[k] < raws@.len(),
        forall|k: int, l: int| 0 <= k < l < kept@.len() ==> #[trigger] kept@[k] < #[trigger] kept@[l],
        forall|i: int|
            0 <= i < raws@.len() ==> (kept@.contains(i as usize) <==> ((#[trigger] raws@[i])@[0]
                == 43 && raws@[i]@[1] == 6 && raws@[i]@[2] == 1 && raws@[i]@[3] == 2 && raws@[i]@[4]
                == 1 && raws@[i]@[5] == 2 && raws@[i]@[6] == 2 && raws@[i]@[7] == 1 && raws@[i]@[8]
                == 2)),
{
    let ghost views = raws@.map_values(|r: Vec<u8>| r@);
    let mut kept: Vec<usize> = Vec::new();
    for i in 0..raws.len()
        invariant
            views == raws@.map_values(|r: Vec<u8>| r@),
            forall|j: int| 0 <= j < raws@.len() ==> (#[trigger] raws@[j])@.len() >= 9,
            kept@.map_values(|k: usize| k as int) == if_descr_positions_of(views.take(i as int)),
    {
        proof {
            assert(views.take(i + 1).drop_last() =~= views.take(i as int));
            assert(views[i as int] == raws@[i as int]@);
        }
        if is_under_if_descr(raws[i].as_slice()) {
            kept.push(i);
            proof {
                assert(kept@.map_values(|k: usize| k as int) =~= if_descr_positions_of(
                    views.take(i as int),
                ).push(i as int));
            }
        }
    }
    proof {
        assert(views.take(raws@.len() as int) =~= views);
        let m = kept@.map_values(|k: usize| k as int);
        assert forall|i: int| 0 <= i < views.len() implies (#[trigger] views[i]).len() >= 9 by {
            assert(views[i] == raws@[i]@);
        }
        lemma_if_descr_positions_bytes(views);
        assert forall|k: int| 0 <= k < kept@.len() implies #[trigger] kept@[k] < raws@.len() by {
            assert(m[k] == kept@[k] as int);
        }
        assert forall|k: int, l: int| 0 <= k < l < kept@.len() implies #[trigger] kept@[k]
            < #[trigger] kept@[l] by {
            assert(m[k] == kept@[k] as int && m[l] == kept@[l] as int);
        }
        assert forall|i: int| 0 <= i < raws@.len() implies (kept@.contains(i as usize) <==> ((
        #[trigger] raws@[i])@[0] == 43 && raws@[i]@[1] == 6 && raws@[i]@[2] == 1 && raws@[i]@[3]
            == 2 && raws@[i]@[4] == 1 && raws@[i]@[5] == 2 && raws@[i]@[6] == 2 && raws@[i]@[7] == 1
            && raws@[i]@[8] == 2)) by {
            assert(views[i] == raws@[i]@);
            if kept@.contains(i as usize) {
                let k = choose|k: int| 0 <= k < kept@.len() && kept@[k] == i as usize;
                assert(m[k] == i);
            }
            if m.contains(i) {
                let k = choose|k: int| 0 <= k < m.len() && m[k] == i;
                assert(kept@[k] == i as usize);
            }
        }
    }
    kept
}

} // verus!
