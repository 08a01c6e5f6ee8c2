//! Chains of one-based links through an append-only sequence of entries.
use vstd::prelude::*;

verus! {

/// A cell of a shard: a key, its value, and the one-based index of the next
/// cell of its chain (zero ends the chain).
pub struct Entry<K, V> {
    pub key: K,
    pub value: V,
    pub next: u16,
}

/// The zero-based indices visited when the chain is followed from the one-based
/// index `head`. A link that does not point strictly backwards ends the walk.
pub open spec fn chain<K, V>(es: Seq<Entry<K, V>>, head: int) -> Seq<int>
    decreases head,
{
    if 1 <= head <= es.len() {
        let nx = es[head - 1].next as int;
        if nx < head {
            seq![head - 1].add(chain(es, nx))
        } else {
            seq![head - 1]
        }
    } else {
        Seq::empty()
    }
}

/// Every link points strictly backwards.
pub open spec fn links_backward<K, V>(es: Seq<Entry<K, V>>) -> bool {
    forall|i: int| 0 <= i < es.len() ==> (#[trigger] es[i]).next as int <= i
}

/// A chain visits cells below its head, strictly decreasing, each within the
/// sequence, and each step follows the `next` link of the cell before it.
pub proof fn lemma_chain_shape<K, V>(es: Seq<Entry<K, V>>, head: int)
    ensures
        chain(es, head).len() <= if head > 0 { head } else { 0 },
        forall|p: int|
            0 <= p < chain(es, head).len() ==> 0 <= #[trigger] chain(es, head)[p] < head
                && chain(es, head)[p] < es.len(),
        forall|p1: int, p2: int|
            0 <= p1 < p2 < chain(es, head).len() ==> #[trigger] chain(es, head)[p1]
                > #[trigger] chain(es, head)[p2],
        1 <= head <= es.len() ==> chain(es, head)[0] == head - 1,
        forall|p: int|
            0 <= p < chain(es, head).len() - 1 ==> chain(es, head)[p + 1] == es[#[trigger] chain(
                es,
                head,
            )[p]].next - 1,
    decreases head,
{
    if 1 <= head <= es.len() {
        let nx = es[head - 1].next as int;
        if nx < head {
            lemma_chain_shape(es, nx);
            let c = chain(es, head);
            let r = chain(es, nx);
            assert(c == seq![head - 1].add(r));
            assert forall|p: int| 0 <= p < c.len() - 1 implies c[p + 1] == es[#[trigger] c[p]].next
                - 1 by {
                if p > 0 {
                    assert(c[p] == r[p - 1]);
                    assert(c[p + 1] == r[p]);
                } else {
                    assert(r.len() > 0);
                    if !(1 <= nx <= es.len()) {
                        assert(r.len() == 0);
                    }
                    assert(c[1] == r[0]);
                    assert(r[0] == nx - 1);
                }
            }
            assert forall|p1: int, p2: int| 0 <= p1 < p2 < c.len() implies #[trigger] c[p1]
                > #[trigger] c[p2] by {
                if p1 > 0 {
                    assert(c[p1] == r[p1 - 1]);
                }
                assert(c[p2] == r[p2 - 1]);
            }
        }
    }
}

/// With backward links, a chain goes on exactly while the link is non-zero.
pub proof fn lemma_chain_step<K, V>(es: Seq<Entry<K, V>>, head: int)
    requires
        links_backward(es),
        1 <= head <= es.len(),
    ensures
        chain(es, head) == seq![head - 1].add(chain(es, es[head - 1].next as int)),
{
    assert(es[head - 1].next as int <= head - 1);
}

/// Appending a cell leaves every chain that starts within the old cells alone.
pub proof fn lemma_chain_push<K, V>(es: Seq<Entry<K, V>>, x: Entry<K, V>, head: int)
    requires
        head <= es.len(),
    ensures
        chain(es.push(x), head) == chain(es, head),
    decreases head,
{
    if 1 <= head <= es.len() {
        let nx = es[head - 1].next as int;
        assert(es.push(x)[head - 1] == es[head - 1]);
        if nx < head {
            lemma_chain_push(es, x, nx);
        }
    }
}

/// Replacing a cell that a chain does not visit leaves the chain alone.
pub proof fn lemma_chain_frame<K, V>(es: Seq<Entry<K, V>>, j: int, e: Entry<K, V>, head: int)
    requires
        0 <= j < es.len(),
        !chain(es, head).contains(j),
    ensures
        chain(es.update(j, e), head) == chain(es, head),
    decreases head,
{
    if 1 <= head <= es.len() {
        let nx = es[head - 1].next as int;
        assert(chain(es, head)[0] == head - 1);
        assert(head - 1 != j);
        assert(es.update(j, e)[head - 1] == es[head - 1]);
        if nx < head {
            let c = chain(es, head);
            let r = chain(es, nx);
            assert(c == seq![head - 1].add(r));
            assert forall|p: int| 0 <= p < r.len() implies r[p] != j by {
                assert(c[p + 1] == r[p]);
            }
            lemma_chain_frame(es, j, e, nx);
        }
    }
}

/// Changing cells without changing any link leaves every chain alone.
pub proof fn lemma_chain_same_links<K, V>(es: Seq<Entry<K, V>>, es2: Seq<Entry<K, V>>, head: int)
    requires
        es.len() == es2.len(),
        forall|i: int| 0 <= i < es.len() ==> (#[trigger] es[i]).next == es2[i].next,
    ensures
        chain(es2, head) == chain(es, head),
    decreases head,
{
    if 1 <= head <= es.len() {
        let nx = es[head - 1].next as int;
        assert(es2[head - 1].next == es[head - 1].next);
        if nx < head {
            lemma_chain_same_links(es, es2, nx);
        }
    }
}

/// Pointing the cell at position `q - 1` of a chain past the cell at position
/// `q` removes exactly that cell from the chain.
pub proof fn lemma_chain_unlink<K, V>(es: Seq<Entry<K, V>>, head: int, q: int, e: Entry<K, V>)
    requires
        links_backward(es),
        1 <= q < chain(es, head).len(),
        e.next == es[chain(es, head)[q]].next,
    ensures
        chain(es.update(chain(es, head)[q - 1], e), head) == chain(es, head).remove(q),
    decreases head,
{
    let c = chain(es, head);
    let prev = c[q - 1];
    let f = c[q];
    let es2 = es.update(prev, e);
    lemma_chain_shape(es, head);
    lemma_chain_step(es, head);
    let nx = es[head - 1].next as int;
    let r = chain(es, nx);
    assert(c == seq![head - 1].add(r));
    if q == 1 {
        assert(prev == head - 1);
        assert(f == r[0]);
        lemma_chain_shape(es, nx);
        assert(nx >= 1);
        lemma_chain_step(es, nx);
        assert(f == nx - 1);
        let rest = chain(es, es[f].next as int);
        assert(r == seq![f].add(rest));
        lemma_chain_shape(es, es[f].next as int);
        assert(es[f].next as int <= f);
        assert(!rest.contains(prev)) by {
            if rest.contains(prev) {
                let p = choose|p: int| 0 <= p < rest.len() && rest[p] == prev;
                assert(rest[p] < es[f].next as int);
            }
        }
        lemma_chain_frame(es, prev, e, es[f].next as int);
        assert(es2[head - 1] == e);
        assert(chain(es2, head) == seq![head - 1].add(chain(es2, e.next as int)));
        assert(chain(es2, head) =~= c.remove(q));
    } else {
        assert(c[0] > c[q - 1]);
        assert(es2[head - 1] == es[head - 1]);
        assert(r[q - 2] == prev);
        assert(r[q - 1] == f);
        lemma_chain_unlink(es, nx, q - 1, e);
        assert(chain(es2, head) == seq![head - 1].add(chain(es2, nx)));
        assert(chain(es2, head) =~= c.remove(q));
    }
}

} // verus!
