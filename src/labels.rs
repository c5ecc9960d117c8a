use vstd::prelude::*;

verus! {

/// Label `a` comes before label `b`: compared character by character, by code
/// point, a proper prefix first.
pub open spec fn label_lt(a: Seq<char>, b: Seq<char>) -> bool
    decreases a.len(),
{
    if a.len() == 0 {
        b.len() > 0
    } else if b.len() == 0 {
        false
    } else if a[0] != b[0] {
        (a[0] as int) < (b[0] as int)
    } else {
        label_lt(a.drop_first(), b.drop_first())
    }
}

/// Each label of `s` comes before every later one.
pub open spec fn strictly_sorted(s: Seq<Seq<char>>) -> bool {
    forall|i: int, j: int| 0 <= i < j < s.len() ==> label_lt(#[trigger] s[i], #[trigger] s[j])
}

/// `nodes` lists the labels of `labels` in order, each once.
pub open spec fn is_label_order(nodes: Seq<Seq<char>>, labels: Set<Seq<char>>) -> bool {
    &&& strictly_sorted(nodes)
    &&& nodes.to_set() == labels
}

/// The labels of `labels` in order, each once: label `i` names node `i`.
pub open spec fn label_order(labels: Set<Seq<char>>) -> Seq<Seq<char>> {
    choose|nodes: Seq<Seq<char>>| is_label_order(nodes, labels)
}

/// The text of each label of a list.
pub open spec fn labels_view(v: Seq<&str>) -> Seq<Seq<char>> {
    v.map_values(|s: &str| s@)
}

pub proof fn lemma_lt_irreflexive(a: Seq<char>)
    ensures
        !label_lt(a, a),
    decreases a.len(),
{
    if a.len() > 0 {
        lemma_lt_irreflexive(a.drop_first());
    }
}

pub proof fn lemma_lt_total(a: Seq<char>, b: Seq<char>)
    ensures
        a == b || label_lt(a, b) || label_lt(b, a),
    decreases a.len(),
{
    if a.len() > 0 && b.len() > 0 && a[0] == b[0] {
        lemma_lt_total(a.drop_first(), b.drop_first());
        if a.drop_first() == b.drop_first() {
            assert(a =~= seq![a[0]] + a.drop_first());
            assert(b =~= seq![b[0]] + b.drop_first());
        }
    } else if a.len() == 0 && b.len() == 0 {
        assert(a =~= b);
    } else if a.len() > 0 && b.len() > 0 {
        assert((a[0] as int) != (b[0] as int));
    }
}

pub proof fn lemma_lt_transitive(a: Seq<char>, b: Seq<char>, c: Seq<char>)
    requires
        label_lt(a, b),
        label_lt(b, c),
    ensures
        label_lt(a, c),
    decreases a.len(),
{
    if a.len() > 0 && a[0] == b[0] && b[0] == c[0] {
        lemma_lt_transitive(a.drop_first(), b.drop_first(), c.drop_first());
    }
}

/// Two sequences in label order with the same labels are the same sequence.
pub proof fn lemma_label_order_unique(a: Seq<Seq<char>>, b: Seq<Seq<char>>)
    requires
        strictly_sorted(a),
        strictly_sorted(b),
        a.to_set() == b.to_set(),
    ensures
        a == b,
    decreases a.len(),
{
    if a.len() == 0 {
        if b.len() > 0 {
            assert(b.to_set().contains(b[0]));
        }
        assert(a =~= b);
    } else {
        assert(a.to_set().contains(a[0]));
        let j = choose|j: int| 0 <= j < b.len() && b[j] == a[0];
        assert(b.to_set().contains(b[0]));
        let i = choose|i: int| 0 <= i < a.len() && a[i] == b[0];
        if j > 0 {
            assert(label_lt(b[0], b[j]));
            if i > 0 {
                assert(label_lt(a[0], a[i]));
                lemma_lt_transitive(a[0], b[0], a[0]);
            }
            lemma_lt_irreflexive(a[0]);
        }
        assert(a[0] == b[0]);
        let a1 = a.drop_first();
        let b1 = b.drop_first();
        assert forall|x: Seq<char>| a1.to_set().contains(x) implies b1.to_set().contains(x) by {
            let k = choose|k: int| 0 <= k < a1.len() && a1[k] == x;
            assert(a.to_set().contains(a[k + 1]));
            let m = choose|m: int| 0 <= m < b.len() && b[m] == x;
            if m == 0 {
                assert(label_lt(a[0], a[k + 1]));
                lemma_lt_irreflexive(a[0]);
            }
            assert(b1[m - 1] == x);
        }
        assert forall|x: Seq<char>| b1.to_set().contains(x) implies a1.to_set().contains(x) by {
            let k = choose|k: int| 0 <= k < b1.len() && b1[k] == x;
            assert(b.to_set().contains(b[k + 1]));
            let m = choose|m: int| 0 <= m < a.len() && a[m] == x;
            if m == 0 {
                assert(label_lt(b[0], b[k + 1]));
                lemma_lt_irreflexive(b[0]);
            }
            assert(a1[m - 1] == x);
        }
        assert(a1.to_set() =~= b1.to_set());
        lemma_label_order_unique(a1, b1);
        assert forall|k: int| 0 <= k < a.len() implies a[k] == b[k] by {
            if k > 0 {
                assert(a[k] == a1[k - 1]);
                assert(b[k] == b1[k - 1]);
            }
        }
        assert(a =~= b);
    }
}

/// A sequence in label order with the labels of `labels` is `label_order(labels)`.
pub proof fn lemma_is_the_label_order(nodes: Seq<Seq<char>>, labels: Set<Seq<char>>)
    requires
        is_label_order(nodes, labels),
    ensures
        label_order(labels) == nodes,
{
    let chosen = label_order(labels);
    assert(is_label_order(chosen, labels));
    lemma_label_order_unique(chosen, nodes);
}

/// Labels in order hold no label twice.
pub proof fn lemma_sorted_distinct(s: Seq<Seq<char>>)
    requires
        strictly_sorted(s),
    ensures
        s.no_duplicates(),
{
    assert forall|i: int, j: int| 0 <= i < s.len() && 0 <= j < s.len() && i != j implies s[i]
        != s[j] by {
        if i < j {
            assert(label_lt(s[i], s[j]));
        } else {
            assert(label_lt(s[j], s[i]));
        }
        lemma_lt_irreflexive(s[i]);
    }
}

/// Whether label `a` comes before label `b`.
pub fn label_less(a: &str, b: &str) -> (r: bool)
    ensures
        r == label_lt(a@, b@),
{
    let la = a.unicode_len();
    let lb = b.unicode_len();
    let mut i: usize = 0;
    assert(a@.skip(0) =~= a@);
    assert(b@.skip(0) =~= b@);
    while i < la && i < lb
        invariant
            la == a@.len(),
            lb == b@.len(),
            i <= la,
            i <= lb,
            label_lt(a@, b@) == label_lt(a@.skip(i as int), b@.skip(i as int)),
        decreases la - i,
    {
        let ca = a.get_char(i);
        let cb = b.get_char(i);
        assert(a@.skip(i as int)[0] == ca);
        assert(b@.skip(i as int)[0] == cb);
        if ca != cb {
            return ca < cb;
        }
        assert(a@.skip(i as int).drop_first() =~= a@.skip(i + 1));
        assert(b@.skip(i as int).drop_first() =~= b@.skip(i + 1));
        i = i + 1;
    }
    i < lb
}

/// Whether labels `a` and `b` are the same text.
pub fn label_eq(a: &str, b: &str) -> (r: bool)
    ensures
        r == (a@ == b@),
{
    let la = a.unicode_len();
    let lb = b.unicode_len();
    if la != lb {
        return false;
    }
    let mut i: usize = 0;
    while i < la
        invariant
            la == a@.len(),
            lb == b@.len(),
            la == lb,
            i <= la,
            a@.subrange(0, i as int) == b@.subrange(0, i as int),
        decreases la - i,
    {
        let ca = a.get_char(i);
        let cb = b.get_char(i);
        if ca != cb {
            assert(a@[i as int] != b@[i as int]);
            return false;
        }
        assert(a@.subrange(0, i + 1) =~= a@.subrange(0, i as int).push(ca));
        assert(b@.subrange(0, i + 1) =~= b@.subrange(0, i as int).push(cb));
        i = i + 1;
    }
    assert(a@ =~= a@.subrange(0, i as int));
    assert(b@ =~= b@.subrange(0, i as int));
    true
}

/// Adds `label` to the ordered labels `nodes`, where it is not there yet.
pub fn insert_label<'a>(nodes: &mut Vec<&'a str>, label: &'a str)
    requires
        strictly_sorted(labels_view(old(nodes)@)),
    ensures
        strictly_sorted(labels_view(final(nodes)@)),
        labels_view(final(nodes)@).to_set() == labels_view(old(nodes)@).to_set().insert(label@),
{
    let ghost before = labels_view(nodes@);
    let mut i: usize = 0;
    while i < nodes.len() && label_less(nodes[i], label)
        invariant
            i <= nodes@.len(),
            nodes@ == old(nodes)@,
            before == labels_view(nodes@),
            forall|k: int| 0 <= k < i ==> label_lt(#[trigger] before[k], label@),
        decreases nodes@.len() - i,
    {
        i = i + 1;
    }
    if i < nodes.len() && label_eq(nodes[i], label) {
        assert(before[i as int] == label@);
        assert(before.to_set().insert(label@) =~= before.to_set());
        return;
    }
    nodes.insert(i, label);
    proof {
        let after = labels_view(nodes@);
        assert(after =~= before.insert(i as int, label@));
        if i < before.len() {
            assert(!label_lt(before[i as int], label@));
            lemma_lt_total(before[i as int], label@);
        }
        assert forall|a: int, b: int| 0 <= a < b < after.len() implies label_lt(
            #[trigger] after[a],
            #[trigger] after[b],
        ) by {
            if b == i {
                assert(after[a] == before[a]);
            } else if a == i {
                assert(after[b] == before[b - 1]);
                if b - 1 > i {
                    assert(label_lt(before[i as int], before[b - 1]));
                    lemma_lt_transitive(label@, before[i as int], before[b - 1]);
                }
            } else if a < i && b > i {
                assert(label_lt(before[a], label@));
                assert(after[b] == before[b - 1]);
                assert(after[a] == before[a]);
                assert(label_lt(before[a], before[b - 1]));
            } else if a > i {
                assert(after[a] == before[a - 1]);
                assert(after[b] == before[b - 1]);
            } else {
                assert(after[a] == before[a]);
                assert(after[b] == before[b]);
            }
        }
        assert forall|x: Seq<char>| after.to_set().contains(x) <==> before.to_set().insert(
            label@,
        ).contains(x) by {
            if after.to_set().contains(x) {
                let k = choose|k: int| 0 <= k < after.len() && after[k] == x;
                if k < i {
                    assert(before[k] == x);
                } else if k > i {
                    assert(before[k - 1] == x);
                }
            }
            if before.to_set().contains(x) {
                let k = choose|k: int| 0 <= k < before.len() && before[k] == x;
                if k < i {
                    assert(after[k] == x);
                } else {
                    assert(after[k + 1] == x);
                }
            }
            if x == label@ {
                assert(after[i as int] == x);
            }
        }
        assert(after.to_set() =~= before.to_set().insert(label@));
    }
}

/// The place of `label` in `nodes`.
pub fn position_of(nodes: &Vec<&str>, label: &str) -> (r: usize)
    requires
        labels_view(nodes@).contains(label@),
    ensures
        r < nodes@.len(),
        labels_view(nodes@)[r as int] == label@,
{
    let mut i: usize = 0;
    while i < nodes.len()
        invariant
            i <= nodes@.len(),
            labels_view(nodes@).contains(label@),
            forall|k: int| 0 <= k < i ==> labels_view(nodes@)[k] != label@,
        decreases nodes@.len() - i,
    {
        if label_eq(nodes[i], label) {
            return i;
        }
        i = i + 1;
    }
    proof {
        let k = choose|k: int| 0 <= k < labels_view(nodes@).len() && labels_view(nodes@)[k] == label@;
        assert(labels_view(nodes@)[k] != label@);
    }
    0
}

} // verus!
