use vstd::prelude::*;
use vstd::string::StrSliceExecFns;

verus! {

/// A field that should hold `True` or `False` holds something else.
#[derive(Debug, Clone, Copy, PartialEq, Eq, Structural)]
pub struct NotABoolean;

/// Whether the two strings are equal.
fn str_equals(a: &str, b: &str) -> (r: bool)
    ensures
        r == (a@ == b@),
{
    let n = a.unicode_len();
    if n != b.unicode_len() {
        return false;
    }
    let mut i: usize = 0;
    while i < n
        invariant
            n == a@.len(),
            n == b@.len(),
            i <= n,
            forall|k: int| 0 <= k < i ==> a@[k] == b@[k],
        decreases n - i,
    {
        if a.get_char(i) != b.get_char(i) {
            return false;
        }
        i = i + 1;
    }
    assert(a@ =~= b@);
    true
}

/// Reads the capitalized boolean of a node record: `True` or `False`.
pub fn uppercase_bool(text: &str) -> (r: Result<bool, NotABoolean>)
    ensures
        text@ == "True"@ ==> r == Ok::<bool, NotABoolean>(true),
        text@ == "False"@ ==> r == Ok::<bool, NotABoolean>(false),
        text@ != "True"@ && text@ != "False"@ ==> r == Err::<bool, NotABoolean>(NotABoolean),
{
    proof {
        reveal_strlit("True");
        reveal_strlit("False");
        assert("True"@.len() != "False"@.len());
    }
    if str_equals(text, "True") {
        Ok(true)
    } else if str_equals(text, "False") {
        Ok(false)
    } else {
        Err(NotABoolean)
    }
}

/// The pairs of distinct items of `items`, each pair once: for each item, in order, the pairs
/// of that item with every item before it.
pub open spec fn pairs_of<T>(items: Seq<T>) -> Seq<(T, T)>
    decreases items.len(),
{
    if items.len() == 0 {
        Seq::empty()
    } else {
        let last = items.len() - 1;
        pairs_of(items.drop_last()) + Seq::new(last as nat, |j: int| (items[last], items[j]))
    }
}

/// There are `n * (n - 1) / 2` pairs of `n` items; the pair at position
/// `i * (i - 1) / 2 + j`, for `j < i`, is `(items[i], items[j])`.
pub proof fn lemma_pairs_of<T>(items: Seq<T>)
    ensures
        pairs_of(items).len() * 2 == items.len() * (items.len() - 1),
        forall|i: int, j: int|
            0 <= j < i < items.len() ==> #[trigger] pairs_of(items)[i * (i - 1) / 2 + j] == (
                items[i],
                items[j],
            ),
    decreases items.len(),
{
    if items.len() > 0 {
        let n = items.len() as int;
        let front = items.drop_last();
        lemma_pairs_of(front);
        let p = pairs_of(items);
        let q = pairs_of(front);
        assert(q.len() * 2 == (n - 1) * (n - 2));
        assert(p.len() * 2 == n * (n - 1)) by (nonlinear_arith)
            requires
                p.len() == q.len() + (n - 1),
                q.len() * 2 == (n - 1) * (n - 2),
        ;
        assert forall|i: int, j: int| 0 <= j < i < n implies #[trigger] p[i * (i - 1) / 2 + j] == (
            items[i],
            items[j],
        ) by {
            if i < n - 1 {
                assert(front[i] == items[i] && front[j] == items[j]);
                assert(i * (i - 1) / 2 + j < q.len()) by (nonlinear_arith)
                    requires
                        0 <= j < i < n - 1,
                        q.len() * 2 == (n - 1) * (n - 2),
                {
                    assert(i * (i - 1) + 2 * j < (n - 1) * (n - 2)) by (nonlinear_arith)
                        requires
                            0 <= j < i < n - 1,
                    ;
                    vstd::arithmetic::div_mod::lemma_fundamental_div_mod(i * (i - 1), 2);
                }
                assert(p[i * (i - 1) / 2 + j] == q[i * (i - 1) / 2 + j]);
            } else {
                assert(i * (i - 1) / 2 == q.len()) by (nonlinear_arith)
                    requires
                        i == n - 1,
                        q.len() * 2 == (n - 1) * (n - 2),
                ;
            }
        }
    }
}

/// Every pair of distinct items of `nodes`, each pair once, in the order of [`pairs_of`].
pub fn node_pairs<T: Copy>(nodes: &[T]) -> (r: Vec<(T, T)>)
    requires
        nodes@.len() * (nodes@.len() - 1) / 2 <= usize::MAX,
    ensures
        r@ == pairs_of(nodes@),
{
    let n = nodes.len();
    let mut pairs: Vec<(T, T)> = Vec::new();
    let mut first: usize = 0;
    while first < n
        invariant
            n == nodes@.len(),
            first <= n,
            pairs@ == pairs_of(nodes@.take(first as int)),
        decreases n - first,
    {
        let ghost before = pairs@;
        let mut second: usize = 0;
        while second < first
            invariant
                n == nodes@.len(),
                second <= first < n,
                pairs@ == before + Seq::new(second as nat, |j: int| (nodes@[first as int], nodes@[j])),
            decreases first - second,
        {
            pairs.push((nodes[first], nodes[second]));
            proof {
                assert(pairs@ =~= before + Seq::new((second + 1) as nat, |j: int| (nodes@[first as int], nodes@[j])));
            }
            second = second + 1;
        }
        proof {
            let t = nodes@.take(first + 1);
            assert(t.drop_last() =~= nodes@.take(first as int));
            assert(Seq::new(first as nat, |j: int| (nodes@[first as int], nodes@[j])) =~= Seq::new(
                first as nat,
                |j: int| (t[first as int], t[j]),
            ));
        }
        first = first + 1;
    }
    proof {
        assert(nodes@.take(n as int) =~= nodes@);
    }
    pairs
}

} // verus!
