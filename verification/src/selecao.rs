use vstd::prelude::*;

verus! {

/// `idx` picks the `k` entries of `chaves` with the largest keys (all of them when there are
/// fewer than `k`), each once, from the largest key down; every entry left out has a key no
/// larger than any picked one.
pub open spec fn eh_selecao_dos_maiores(chaves: Seq<u64>, k: nat, idx: Seq<usize>) -> bool {
    &&& idx.len() == (if k < chaves.len() { k } else { chaves.len() })
    &&& forall|i: int| 0 <= i < idx.len() ==> idx[i] < chaves.len()
    &&& forall|i: int, j: int| 0 <= i < j < idx.len() ==> idx[i] != idx[j]
    &&& forall|i: int, j: int|
        0 <= i < j < idx.len() ==> chaves[idx[i] as int] >= chaves[idx[j] as int]
    &&& forall|j: int, i: int|
        #![trigger chaves[j], idx[i]]
        0 <= j < chaves.len() && !idx.contains(j as usize) && 0 <= i < idx.len() ==> chaves[j]
            <= chaves[idx[i] as int]
}

/// The positions of the `k` largest keys, largest first; among equal keys, the earlier position first.
pub fn selecionar_maiores(chaves: &Vec<u64>, k: usize) -> (idx: Vec<usize>)
    ensures
        eh_selecao_dos_maiores(chaves@, k as nat, idx@),
{
    let n = chaves.len();
    let mut restantes: Vec<usize> = Vec::new();
    let mut j: usize = 0;
    while j < n
        invariant
            j <= n == chaves@.len(),
            restantes@.len() == j,
            forall|i: int| 0 <= i < j ==> restantes@[i] == i,
        decreases n - j,
    {
        restantes.push(j);
        j += 1;
    }
    let mut idx: Vec<usize> = Vec::new();
    proof {
        assert forall|x: usize| x < n implies (idx@.contains(x) <==> !restantes@.contains(x)) by {
            assert(restantes@[x as int] == x);
        }
    }
    while idx.len() < k && idx.len() < n
        invariant
            n == chaves@.len(),
            idx@.len() + restantes@.len() == n,
            idx@.len() <= k,
            forall|i: int| 0 <= i < idx@.len() ==> idx@[i] < n,
            forall|i: int| 0 <= i < restantes@.len() ==> restantes@[i] < n,
            forall|a: int, b: int| 0 <= a < b < restantes@.len() ==> restantes@[a] != restantes@[b],
            forall|a: int, b: int| 0 <= a < b < idx@.len() ==> idx@[a] != idx@[b],
            forall|x: usize| x < n ==> (idx@.contains(x) <==> !restantes@.contains(x)),
            forall|a: int, b: int|
                0 <= a < b < idx@.len() ==> chaves@[idx@[a] as int] >= chaves@[idx@[b] as int],
            forall|r: int, i: int|
                0 <= r < restantes@.len() && 0 <= i < idx@.len() ==> chaves@[restantes@[r] as int]
                    <= chaves@[idx@[i] as int],
        decreases n - idx.len(),
    {
        let mut melhor: usize = 0;
        let mut p: usize = 1;
        while p < restantes.len()
            invariant
                n == chaves@.len(),
                restantes@.len() > 0,
                forall|i: int| 0 <= i < restantes@.len() ==> restantes@[i] < n,
                melhor < restantes@.len(),
                1 <= p <= restantes@.len(),
                forall|q: int| 0 <= q < p ==> chaves@[restantes@[q] as int] <= chaves@[restantes@[melhor as int] as int],
            decreases restantes.len() - p,
        {
            if chaves[restantes[p]] > chaves[restantes[melhor]] {
                melhor = p;
            }
            p += 1;
        }
        let ghost antes_r = restantes@;
        let ghost antes_i = idx@;
        let escolhido = restantes.remove(melhor);
        idx.push(escolhido);
        proof {
            assert(restantes@ == antes_r.remove(melhor as int));
            assert forall|x: usize| x < n implies (idx@.contains(x) <==> !restantes@.contains(x)) by {
                if x == escolhido {
                    assert(idx@[idx@.len() - 1] == x);
                    if restantes@.contains(x) {
                        let q = choose|q: int| 0 <= q < restantes@.len() && restantes@[q] == x;
                        if q < melhor {
                            assert(antes_r[q] == x);
                        } else {
                            assert(antes_r[q + 1] == x);
                        }
                    }
                } else {
                    if idx@.contains(x) {
                        let q = choose|q: int| 0 <= q < idx@.len() && idx@[q] == x;
                        assert(antes_i[q] == x);
                    }
                    if antes_i.contains(x) {
                        let q = choose|q: int| 0 <= q < antes_i.len() && antes_i[q] == x;
                        assert(idx@[q] == x);
                    }
                    if restantes@.contains(x) {
                        let q = choose|q: int| 0 <= q < restantes@.len() && restantes@[q] == x;
                        if q < melhor {
                            assert(antes_r[q] == x);
                        } else {
                            assert(antes_r[q + 1] == x);
                        }
                    }
                    if antes_r.contains(x) {
                        let q = choose|q: int| 0 <= q < antes_r.len() && antes_r[q] == x;
                        if q < melhor {
                            assert(restantes@[q] == x);
                        } else {
                            assert(restantes@[q - 1] == x);
                        }
                    }
                }
            }
            assert forall|a: int, b: int| 0 <= a < b < idx@.len() implies idx@[a] != idx@[b] by {
                if b == idx@.len() - 1 {
                    assert(antes_i.contains(idx@[a]));
                    assert(antes_r.contains(escolhido));
                }
            }
            assert forall|r: int, i: int|
                0 <= r < restantes@.len() && 0 <= i < idx@.len() implies chaves@[restantes@[r] as int]
                    <= chaves@[idx@[i] as int] by {
                if r < melhor {
                    assert(restantes@[r] == antes_r[r]);
                } else {
                    assert(restantes@[r] == antes_r[r + 1]);
                }
            }
        }
    }
    proof {
        assert forall|j: int, i: int|
            #![trigger chaves@[j], idx@[i]]
            0 <= j < chaves@.len() && !idx@.contains(j as usize) && 0 <= i < idx@.len() implies chaves@[j]
                <= chaves@[idx@[i] as int] by {
            assert(restantes@.contains(j as usize));
            let q = choose|q: int| 0 <= q < restantes@.len() && restantes@[q] == j as usize;
        }
    }
    idx
}

} // verus!
