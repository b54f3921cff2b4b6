//! A set of indices that many insert into and that one takes all indices from
//! at once.
use vstd::prelude::*;

verus! {

/// The number of bits of a word.
pub const BITS: usize = 64;

/// Whether bit `k` of `word` is set.
pub open spec fn bit(word: u64, k: int) -> bool {
    0 <= k < 64 && (word >> (k as u64)) & 1u64 == 1u64
}

/// Whether each word of level `l` has a bit in the level above it.
pub open spec fn covered(tree: Seq<Seq<u64>>, l: int) -> bool {
    tree[l].len() <= 64 * tree[l + 1].len()
}

/// Whether the words of `tree` are laid out as a tree: each level has at least
/// a word, each word of a level has a bit in the level above it, and the last
/// level (the root) is a single word.
pub open spec fn shaped(tree: Seq<Seq<u64>>) -> bool {
    &&& tree.len() >= 1
    &&& tree.last().len() == 1
    &&& forall|l: int|
        0 <= l < tree.len() ==> 1 <= (#[trigger] tree[l]).len() && tree[l].len() * 64 <= usize::MAX
    &&& forall|l: int| 0 <= l < tree.len() - 1 ==> #[trigger] covered(tree, l)
}

/// Whether every set bit above the first level stands for a word of the level
/// below.
pub open spec fn bounded(tree: Seq<Seq<u64>>) -> bool {
    forall|l: int, w: int, k: int|
        0 <= l < tree.len() - 1 && 0 <= w < tree[l + 1].len() && #[trigger] bit(tree[l + 1][w], k)
            ==> 64 * w + k < tree[l].len()
}

/// Whether the bit for word `w` of level `l` is set in the level above.
pub open spec fn announced(tree: Seq<Seq<u64>>, l: int, w: int) -> bool {
    bit(tree[l + 1][w / 64], w % 64)
}

/// Whether every word with a set bit, but for those in `open_words`, is announced in
/// the level above it. The pairs in `open_words` hold a level and a word of it.
pub open spec fn linked_but(tree: Seq<Seq<u64>>, open_words: Set<(int, int)>) -> bool {
    forall|l: int, w: int|
        0 <= l < tree.len() - 1 && 0 <= w < tree[l].len() && tree[l][w] != 0
            && !open_words.contains((l, w)) ==> #[trigger] announced(tree, l, w)
}

/// Whether every word with a set bit is announced in the level above it, so that
/// every set bit can be reached from the root.
pub open spec fn linked(tree: Seq<Seq<u64>>) -> bool {
    linked_but(tree, Set::empty())
}

/// Whether every set bit above the first level stands for a word of the level
/// below that has a set bit.
pub open spec fn tight(tree: Seq<Seq<u64>>) -> bool {
    forall|l: int, w: int, k: int|
        0 <= l < tree.len() - 1 && 0 <= w < tree[l + 1].len() && #[trigger] bit(tree[l + 1][w], k)
            ==> 64 * w + k < tree[l].len() && tree[l][64 * w + k] != 0
}

/// Whether the bit of index `i` is set.
pub open spec fn has(tree: Seq<Seq<u64>>, i: int) -> bool {
    bit(tree[0][i / 64], i % 64)
}

/// For each index, whether it is in the set.
pub open spec fn members(tree: Seq<Seq<u64>>) -> Seq<bool> {
    Seq::new((tree[0].len() * 64) as nat, |i: int| has(tree, i))
}

/// Whether no flag is set.
pub open spec fn none_set(flags: Seq<bool>) -> bool {
    forall|i: int| 0 <= i < flags.len() ==> !#[trigger] flags[i]
}

/// The positions in `from..to` at which `flags` is set, in ascending order.
pub open spec fn listing(flags: Seq<bool>, from: int, to: int) -> Seq<usize>
    decreases to - from,
{
    if to <= from {
        Seq::empty()
    } else {
        let earlier = listing(flags, from, to - 1);
        if 0 <= to - 1 < flags.len() && flags[to - 1] {
            earlier.push((to - 1) as usize)
        } else {
            earlier
        }
    }
}

/// `tree` after the bit of `index` was set in `level`.
pub open spec fn with_bit(tree: Seq<Seq<u64>>, level: int, index: int) -> Seq<Seq<u64>> {
    let word = tree[level][index / 64];
    tree.update(
        level,
        tree[level].update(index / 64, word | (1u64 << ((index % 64) as u64))),
    )
}

/// `tree` after word `word` of `level` was set to zero.
pub open spec fn without_word(tree: Seq<Seq<u64>>, level: int, word: int) -> Seq<Seq<u64>> {
    tree.update(level, tree[level].update(word, 0))
}

/// The words of the level below that the set bits of word `word` of `level` stand for,
/// each with its level.
pub open spec fn children(tree: Seq<Seq<u64>>, level: int, word: int) -> Set<(int, int)> {
    Set::new(
        |p: (int, int)|
            p.0 == level - 1 && p.1 / 64 == word && bit(tree[level][word], p.1 % 64),
    )
}

/// The word that stands for word `w` in the `k`-th level above it.
pub open spec fn ancestor(w: int, k: nat) -> int
    decreases k,
{
    if k == 0 {
        w
    } else {
        ancestor(w / 64, (k - 1) as nat)
    }
}

/// Whether word `w` of level `l` is word `word` of `level` or below it.
pub open spec fn below(l: int, w: int, level: int, word: int) -> bool {
    l <= level && ancestor(w, (level - l) as nat) == word
}

/// Whether every word below word `word` of `level` that has a set bit is
/// announced in the level above it.
pub open spec fn linked_below(tree: Seq<Seq<u64>>, level: int, word: int) -> bool {
    forall|l: int, w: int|
        0 <= l < level && 0 <= w < tree[l].len() && below(l, w, level, word) && tree[l][w] != 0
            ==> #[trigger] announced(tree, l, w)
}

/// `tree` with all words below word `word` of `level`, and this word itself, set
/// to zero.
pub open spec fn cleared(tree: Seq<Seq<u64>>, level: int, word: int) -> Seq<Seq<u64>> {
    Seq::new(
        tree.len(),
        |l: int|
            Seq::new(
                tree[l].len(),
                |w: int|
                    if below(l, w, level, word) {
                        0u64
                    } else {
                        tree[l][w]
                    },
            ),
    )
}

/// The number of indices that a word of `level` stands for.
pub open spec fn span(level: nat) -> int
    decreases level,
{
    if level == 0 {
        64
    } else {
        64 * span((level - 1) as nat)
    }
}

proof fn lemma_set_bit(word: u64, k: u64)
    requires
        k < 64,
    ensures
        word | (1u64 << k) != 0,
        forall|j: int| #[trigger] bit(word | (1u64 << k), j) == (bit(word, j) || j == k),
{
    assert(word | (1u64 << k) != 0) by (bit_vector)
        requires
            k < 64,
    ;
    assert forall|j: int| #[trigger] bit(word | (1u64 << k), j) == (bit(word, j) || j == k) by {
        if 0 <= j < 64 {
            let i = j as u64;
            assert((((word | (1u64 << k)) >> i) & 1u64 == 1u64) <==> ((word >> i) & 1u64 == 1u64
                || i == k)) by (bit_vector)
                requires
                    i < 64,
                    k < 64,
            ;
        }
    }
}

proof fn lemma_zero_word()
    ensures
        forall|j: int| !#[trigger] bit(0, j),
{
    assert forall|j: int| !#[trigger] bit(0, j) by {
        if 0 <= j < 64 {
            let i = j as u64;
            assert((0u64 >> i) & 1u64 == 0u64) by (bit_vector);
        }
    }
}

proof fn lemma_lowest_bit(word: u64)
    requires
        word != 0,
    ensures
        word.trailing_zeros() < 64,
        bit(word, word.trailing_zeros() as int),
        forall|j: int| j < word.trailing_zeros() ==> !#[trigger] bit(word, j),
        forall|j: int|
            #[trigger] bit(word & ((word - 1) as u64), j) == (bit(word, j) && j
                != word.trailing_zeros()),
{
    vstd::std_specs::bits::axiom_u64_trailing_zeros(word);
    let z = word.trailing_zeros() as u64;
    let m = (word - 1) as u64;
    assert forall|j: int| #[trigger] bit(word & m, j) == (bit(word, j) && j != z) by {
        if 0 <= j < 64 {
            let i = j as u64;
            let s = (64 - z) as u64;
            assert((((word & m) >> i) & 1u64 == 1u64) <==> ((word >> i) & 1u64 == 1u64 && i != z))
                by (bit_vector)
                requires
                    word != 0,
                    m == word - 1,
                    z < 64,
                    i < 64,
                    (word >> z) & 1u64 == 1u64,
                    s == 64 - z,
                    word << s == 0,
            ;
        }
    }
}

/// The shape of a tree is a matter of the lengths of its levels.
proof fn lemma_same_shape(tree: Seq<Seq<u64>>, other: Seq<Seq<u64>>)
    requires
        shaped(tree),
        other.len() == tree.len(),
        forall|l: int| 0 <= l < tree.len() ==> (#[trigger] other[l]).len() == tree[l].len(),
    ensures
        shaped(other),
{
    assert forall|l: int| 0 <= l < tree.len() - 1 implies #[trigger] covered(other, l) by {
        assert(covered(tree, l));
    }
}

/// An insertion sets the bit of `index` in `level`, in a step of its own. When
/// it started, every word with a set bit was announced, but for those in
/// `open_words`. After the step the word of `index` in the level below is
/// announced, and the insertion still has to announce the word that it set its
/// bit in only if that word was zero. So whatever steps of other insertions and
/// of a taker come in between, every set bit can be reached from the root, or
/// will be once the insertions have finished.
pub proof fn lemma_insert_step(
    tree: Seq<Seq<u64>>,
    open_words: Set<(int, int)>,
    level: int,
    index: int,
)
    requires
        shaped(tree),
        linked_but(tree, open_words),
        0 <= level < tree.len(),
        0 <= index < 64 * tree[level].len(),
    ensures
        shaped(with_bit(tree, level, index)),
        linked_but(
            with_bit(tree, level, index),
            if tree[level][index / 64] == 0 && level < tree.len() - 1 {
                open_words.remove((level - 1, index)).insert((level, index / 64))
            } else {
                open_words.remove((level - 1, index))
            },
        ),
{
    let after = with_bit(tree, level, index);
    let word = tree[level][index / 64];
    let k = (index % 64) as u64;
    lemma_set_bit(word, k);
    lemma_same_shape(tree, after);
    assert forall|l: int, w: int|
        0 <= l < after.len() - 1 && 0 <= w < after[l].len() && after[l][w] != 0 && !(
        (open_words.contains((l, w)) && (l, w) != (level - 1, index)) || (word == 0 && l == level
            && w == index / 64)) implies #[trigger] announced(after, l, w) by {
        assert(covered(tree, l));
        if l != level - 1 || w != index {
            assert(announced(tree, l, w));
        }
    }
}

/// A taker sets word `word` of `level` to zero, in a step of its own, and goes on
/// to the words of the level below whose bits it took. After the step they are
/// the only words that are no longer announced, so nothing is lost whatever
/// steps of insertions come in between.
pub proof fn lemma_take_step(
    tree: Seq<Seq<u64>>,
    open_words: Set<(int, int)>,
    level: int,
    word: int,
)
    requires
        shaped(tree),
        linked_but(tree, open_words),
        0 <= level < tree.len(),
        0 <= word < tree[level].len(),
    ensures
        shaped(without_word(tree, level, word)),
        linked_but(
            without_word(tree, level, word),
            open_words.remove((level, word)).union(children(tree, level, word)),
        ),
{
    let after = without_word(tree, level, word);
    lemma_same_shape(tree, after);
    let rest = open_words.remove((level, word)).union(children(tree, level, word));
    assert forall|l: int, w: int|
        0 <= l < after.len() - 1 && 0 <= w < after[l].len() && after[l][w] != 0
            && !rest.contains((l, w)) implies #[trigger] announced(after, l, w) by {
        assert(announced(tree, l, w));
        assert(covered(tree, l));
    }
}

/// Setting the bit of a word that has a set bit keeps the tree tight.
proof fn lemma_tight_step(tree: Seq<Seq<u64>>, level: int, index: int)
    requires
        shaped(tree),
        tight(tree),
        0 <= level < tree.len(),
        0 <= index < 64 * tree[level].len(),
        level > 0 ==> index < tree[level - 1].len() && tree[level - 1][index] != 0,
    ensures
        tight(with_bit(tree, level, index)),
        with_bit(tree, level, index)[level][index / 64] != 0,
{
    lemma_set_bit(tree[level][index / 64], (index % 64) as u64);
}

/// Only setting a bit in the first level changes what is in the set.
pub proof fn lemma_members_with_bit(tree: Seq<Seq<u64>>, level: int, index: int)
    requires
        shaped(tree),
        0 <= level < tree.len(),
        0 <= index < 64 * tree[level].len(),
    ensures
        members(with_bit(tree, level, index)) == (if level == 0 {
            members(tree).update(index, true)
        } else {
            members(tree)
        }),
{
    lemma_set_bit(tree[level][index / 64], (index % 64) as u64);
}

proof fn lemma_ancestor_in_tree(tree: Seq<Seq<u64>>, l: int, w: int, k: nat)
    requires
        shaped(tree),
        0 <= l,
        l + k < tree.len(),
        0 <= w < tree[l].len(),
    ensures
        0 <= ancestor(w, k) < tree[l + k].len(),
    decreases k,
{
    if k > 0 {
        assert(covered(tree, l));
        lemma_ancestor_in_tree(tree, l + 1, w / 64, (k - 1) as nat);
    }
}

/// Where every word below is announced, a word that has a set bit leads up to a
/// word of `level` that has one.
proof fn lemma_leads_up(tree: Seq<Seq<u64>>, l: int, w: int, level: int, word: int)
    requires
        shaped(tree),
        0 <= l <= level < tree.len(),
        linked_below(tree, level, word),
        0 <= w < tree[l].len(),
        below(l, w, level, word),
        tree[l][w] != 0,
    ensures
        tree[level][word] != 0,
    decreases level - l,
{
    if l < level {
        lemma_zero_word();
        assert(announced(tree, l, w));
        assert(covered(tree, l));
        lemma_leads_up(tree, l + 1, w / 64, level, word);
    }
}

/// A word that has a set bit leads down to an index.
proof fn lemma_leads_down(tree: Seq<Seq<u64>>, l: int, w: int) -> (i: int)
    requires
        shaped(tree),
        tight(tree),
        0 <= l < tree.len(),
        0 <= w < tree[l].len(),
        tree[l][w] != 0,
    ensures
        0 <= i < members(tree).len(),
        members(tree)[i],
    decreases l,
{
    lemma_lowest_bit(tree[l][w]);
    let k = tree[l][w].trailing_zeros() as int;
    if l == 0 {
        64 * w + k
    } else {
        assert(bit(tree[l - 1 + 1][w], k));
        lemma_leads_down(tree, l - 1, 64 * w + k)
    }
}

/// The root word is zero only if no word has a set bit.
proof fn lemma_zero_root(tree: Seq<Seq<u64>>)
    requires
        shaped(tree),
        linked(tree),
    ensures
        tree.last()[0] == 0 ==> forall|l: int, w: int|
            0 <= l < tree.len() && 0 <= w < tree[l].len() ==> #[trigger] tree[l][w] == 0,
{
    if tree.last()[0] == 0 {
        assert forall|l: int, w: int|
            0 <= l < tree.len() && 0 <= w < tree[l].len() implies #[trigger] tree[l][w] == 0 by {
            if tree[l][w] != 0 {
                let top = tree.len() - 1;
                lemma_ancestor_in_tree(tree, l, w, (top - l) as nat);
                lemma_leads_up(tree, l, w, top, 0);
            }
        }
    }
}

/// The root word is zero exactly when the set is empty.
proof fn lemma_root(tree: Seq<Seq<u64>>)
    requires
        shaped(tree),
        tight(tree),
        linked(tree),
    ensures
        tree.last()[0] == 0 <==> none_set(members(tree)),
{
    lemma_zero_word();
    lemma_zero_root(tree);
    if tree.last()[0] != 0 {
        lemma_leads_down(tree, tree.len() - 1, 0);
    }
}

/// Where every word with a set bit is announced in the level above it, every index in
/// the set can be reached from the root.
pub proof fn lemma_reached(tree: Seq<Seq<u64>>, i: int)
    requires
        shaped(tree),
        linked(tree),
        0 <= i < members(tree).len(),
        members(tree)[i],
    ensures
        tree.last()[0] != 0,
{
    lemma_zero_word();
    lemma_zero_root(tree);
    assert(has(tree, i));
}

/// The number of indices that a bit of a word of `level` stands for.
pub open spec fn unit(level: nat) -> int {
    if level == 0 {
        1
    } else {
        span((level - 1) as nat)
    }
}

/// The first index that bit `k` of word `word` of `level` stands for.
pub open spec fn first_index(level: int, word: int, k: int) -> int {
    (64 * word + k) * unit(level as nat)
}

/// `tree` after the taker has taken word `word` of `level` and has gone through
/// the words below that its first `k` bits stand for.
spec fn partly_cleared(tree: Seq<Seq<u64>>, level: int, word: int, k: int) -> Seq<Seq<u64>> {
    Seq::new(
        tree.len(),
        |l: int|
            Seq::new(
                tree[l].len(),
                |w: int|
                    if l == level && w == word {
                        0u64
                    } else if l < level && ancestor(w, (level - 1 - l) as nat) / 64 == word
                        && ancestor(w, (level - 1 - l) as nat) % 64 < k {
                        0u64
                    } else {
                        tree[l][w]
                    },
            ),
    )
}

proof fn lemma_ancestor_step(w: int, k: nat)
    ensures
        ancestor(w, k + 1) == ancestor(w, k) / 64,
    decreases k,
{
    reveal_with_fuel(ancestor, 2);
    if k > 0 {
        lemma_ancestor_step(w / 64, (k - 1) as nat);
    }
}

proof fn lemma_span_positive(level: nat)
    ensures
        span(level) > 0,
    decreases level,
{
    if level > 0 {
        lemma_span_positive((level - 1) as nat);
    }
}

/// The indices that a word stands for.
proof fn lemma_span(j: int, level: nat, word: int)
    requires
        0 <= j,
    ensures
        ancestor(j / 64, level) == word <==> word * span(level) <= j < (word + 1) * span(level),
    decreases level,
{
    if level > 0 {
        let lower = (level - 1) as nat;
        let s = span(lower);
        let a = ancestor(j / 64, lower);
        lemma_span_positive(lower);
        lemma_ancestor_step(j / 64, lower);
        lemma_span(j, lower, a);
        assert(word * (64 * s) == (64 * word) * s) by (nonlinear_arith);
        assert((word + 1) * (64 * s) == (64 * word + 64) * s) by (nonlinear_arith);
        if a < 64 * word {
            assert((a + 1) * s <= (64 * word) * s) by (nonlinear_arith)
                requires
                    a + 1 <= 64 * word,
                    s > 0,
            ;
        } else {
            assert((64 * word) * s <= a * s) by (nonlinear_arith)
                requires
                    64 * word <= a,
                    s > 0,
            ;
        }
        if a < 64 * word + 64 {
            assert((a + 1) * s <= (64 * word + 64) * s) by (nonlinear_arith)
                requires
                    a + 1 <= 64 * word + 64,
                    s > 0,
            ;
        } else {
            assert((64 * word + 64) * s <= a * s) by (nonlinear_arith)
                requires
                    64 * word + 64 <= a,
                    s > 0,
            ;
        }
    }
}

proof fn lemma_first_index(level: int, word: int, k: int)
    requires
        0 <= level,
    ensures
        first_index(level, word, 0) == word * span(level as nat),
        first_index(level, word, 64) == (word + 1) * span(level as nat),
        first_index(level, word, k + 1) == first_index(level, word, k) + unit(level as nat),
        unit(level as nat) > 0,
        level > 0 ==> first_index(level, word, k) == (64 * word + k) * span((level - 1) as nat),
        level > 0 ==> first_index(level, word, k + 1) == (64 * word + k + 1) * span(
            (level - 1) as nat,
        ),
        forall|j: int|
            j <= k ==> #[trigger] first_index(level, word, j) <= first_index(level, word, k),
{
    let u = unit(level as nat);
    lemma_span_positive((level - 1) as nat);
    assert((64 * word) * u == word * (64 * u)) by (nonlinear_arith);
    assert((64 * word + 64) * u == (word + 1) * (64 * u)) by (nonlinear_arith);
    assert((64 * word + (k + 1)) * u == (64 * word + k) * u + u) by (nonlinear_arith);
    assert forall|j: int| j <= k implies #[trigger] first_index(level, word, j) <= first_index(
        level,
        word,
        k,
    ) by {
        assert((64 * word + j) * u <= (64 * word + k) * u) by (nonlinear_arith)
            requires
                j <= k,
                u > 0,
        ;
    }
}

/// Taking the indices of the set gives exactly those that are in it, each of them
/// once and in ascending order.
pub proof fn lemma_listing(flags: Seq<bool>, from: int, to: int)
    requires
        0 <= from,
        flags.len() <= usize::MAX + 1,
    ensures
        forall|k: int|
            0 <= k < listing(flags, from, to).len() ==> from <= #[trigger] listing(
                flags,
                from,
                to,
            )[k] < to && listing(flags, from, to)[k] < flags.len() && flags[listing(
                flags,
                from,
                to,
            )[k] as int],
        forall|i: int|
            from <= i < to && i < flags.len() && #[trigger] flags[i] ==> listing(
                flags,
                from,
                to,
            ).contains(i as usize),
        forall|j: int, k: int|
            0 <= j < k < listing(flags, from, to).len() ==> #[trigger] listing(flags, from, to)[j]
                < #[trigger] listing(flags, from, to)[k],
    decreases to - from,
{
    if from < to {
        lemma_listing(flags, from, to - 1);
        let earlier = listing(flags, from, to - 1);
        let all = listing(flags, from, to);
        assert forall|i: int|
            from <= i < to && i < flags.len() && #[trigger] flags[i] implies all.contains(
            i as usize,
        ) by {
            if i < to - 1 {
                let k = earlier.index_of(i as usize);
                assert(all[k] == i);
            } else {
                assert(all[all.len() - 1] == i);
            }
        }
    }
}

/// A listing is that of a first part, followed by that of the rest.
pub proof fn lemma_listing_split(flags: Seq<bool>, from: int, mid: int, to: int)
    requires
        from <= mid <= to,
    ensures
        listing(flags, from, to) == listing(flags, from, mid) + listing(flags, mid, to),
    decreases to - mid,
{
    if mid < to {
        lemma_listing_split(flags, from, mid, to - 1);
    }
}

/// Where no flag is set, nothing is listed.
pub proof fn lemma_listing_empty(flags: Seq<bool>, from: int, to: int)
    requires
        forall|i: int| from <= i < to && 0 <= i < flags.len() ==> !#[trigger] flags[i],
    ensures
        listing(flags, from, to) == Seq::<usize>::empty(),
    decreases to - from,
{
    if from < to {
        lemma_listing_empty(flags, from, to - 1);
    }
}

proof fn lemma_listing_same(flags: Seq<bool>, other: Seq<bool>, from: int, to: int)
    requires
        flags.len() == other.len(),
        forall|i: int| from <= i < to && 0 <= i < flags.len() ==> #[trigger] flags[i] == other[i],
    ensures
        listing(flags, from, to) == listing(other, from, to),
    decreases to - from,
{
    if from < to {
        lemma_listing_same(flags, other, from, to - 1);
    }
}

proof fn lemma_linked_child(tree: Seq<Seq<u64>>, level: int, word: int, child: int)
    requires
        linked_below(tree, level, word),
        0 < level,
        child / 64 == word,
    ensures
        linked_below(tree, level - 1, child),
{
    assert forall|l: int, w: int|
        0 <= l < level - 1 && 0 <= w < tree[l].len() && below(l, w, level - 1, child)
            && tree[l][w] != 0 implies #[trigger] announced(tree, l, w) by {
        lemma_ancestor_step(w, (level - 1 - l) as nat);
    }
}

/// Words below a bit that is not set have no set bit.
proof fn lemma_nothing_below(tree: Seq<Seq<u64>>, level: int, word: int, l: int, w: int)
    requires
        shaped(tree),
        0 <= l < level < tree.len(),
        0 <= word < tree[level].len(),
        linked_below(tree, level, word),
        0 <= w < tree[l].len(),
        ancestor(w, (level - 1 - l) as nat) / 64 == word,
        !bit(tree[level][word], ancestor(w, (level - 1 - l) as nat) % 64),
    ensures
        tree[l][w] == 0,
{
    let child = ancestor(w, (level - 1 - l) as nat);
    if tree[l][w] != 0 {
        lemma_ancestor_in_tree(tree, l, w, (level - 1 - l) as nat);
        lemma_linked_child(tree, level, word, child);
        lemma_leads_up(tree, l, w, level - 1, child);
        reveal_with_fuel(ancestor, 2);
        assert(announced(tree, level - 1, child));
    }
}

/// Going past bits that are not set changes nothing and finds nothing.
proof fn lemma_skip(tree: Seq<Seq<u64>>, level: int, word: int, from: int, to: int)
    requires
        shaped(tree),
        0 <= level < tree.len(),
        0 <= word < tree[level].len(),
        linked_below(tree, level, word),
        0 <= from <= to <= 64,
        forall|k: int| from <= k < to ==> !#[trigger] bit(tree[level][word], k),
    ensures
        partly_cleared(tree, level, word, from) == partly_cleared(tree, level, word, to),
        listing(members(tree), first_index(level, word, 0), first_index(level, word, from))
            == listing(members(tree), first_index(level, word, 0), first_index(level, word, to)),
{
    assert forall|l: int, w: int|
        0 <= l < tree.len() && 0 <= w < tree[l].len() implies #[trigger] partly_cleared(
        tree,
        level,
        word,
        from,
    )[l][w] == partly_cleared(tree, level, word, to)[l][w] by {
        if l < level {
            let child = ancestor(w, (level - 1 - l) as nat);
            if child / 64 == word && from <= child % 64 < to {
                lemma_nothing_below(tree, level, word, l, w);
            }
        }
    }
    assert forall|l: int| 0 <= l < tree.len() implies #[trigger] partly_cleared(
        tree,
        level,
        word,
        from,
    )[l] == partly_cleared(tree, level, word, to)[l] by {}
    lemma_first_index(level, word, from);
    lemma_first_index(level, word, to);
    let a = first_index(level, word, from);
    let b = first_index(level, word, to);
    assert forall|j: int| a <= j < b && 0 <= j < members(tree).len() implies !#[trigger] members(
        tree,
    )[j] by {
        lemma_zero_word();
        if level > 0 {
            let child = ancestor(j / 64, (level - 1) as nat);
            lemma_span(j, (level - 1) as nat, child);
            let s = span((level - 1) as nat);
            lemma_span_positive((level - 1) as nat);
            if child < 64 * word + from {
                assert((child + 1) * s <= (64 * word + from) * s) by (nonlinear_arith)
                    requires
                        child + 1 <= 64 * word + from,
                        s > 0,
                ;
            }
            if child >= 64 * word + to {
                assert(child * s >= (64 * word + to) * s) by (nonlinear_arith)
                    requires
                        child >= 64 * word + to,
                        s > 0,
                ;
            }
            lemma_nothing_below(tree, level, word, 0, j / 64);
        }
    }
    lemma_listing_empty(members(tree), a, b);
    lemma_listing_split(members(tree), first_index(level, word, 0), a, b);
}

/// Taking the word that a set bit stands for.
proof fn lemma_descend(tree: Seq<Seq<u64>>, level: int, word: int, k: int)
    requires
        shaped(tree),
        bounded(tree),
        0 < level < tree.len(),
        0 <= word < tree[level].len(),
        linked_below(tree, level, word),
        bit(tree[level][word], k),
    ensures
        64 * word + k < tree[level - 1].len(),
        ({
            let now = partly_cleared(tree, level, word, k);
            &&& shaped(now)
            &&& bounded(now)
            &&& linked_below(now, level - 1, 64 * word + k)
            &&& cleared(now, level - 1, 64 * word + k) == partly_cleared(tree, level, word, k + 1)
            &&& listing(
                members(now),
                first_index(level, word, k),
                first_index(level, word, k + 1),
            ) == listing(
                members(tree),
                first_index(level, word, k),
                first_index(level, word, k + 1),
            )
        }),
{
    let now = partly_cleared(tree, level, word, k);
    let child = 64 * word + k;
    assert(bit(tree[level - 1 + 1][word], k));
    lemma_zero_word();
    lemma_same_shape(tree, now);
    assert(bounded(now));
    lemma_linked_child(tree, level, word, child);
    assert(linked_below(now, level - 1, child)) by {
        assert forall|l: int, w: int|
            0 <= l < level - 1 && 0 <= w < now[l].len() && below(l, w, level - 1, child)
                && now[l][w] != 0 implies #[trigger] announced(now, l, w) by {
            assert(announced(tree, l, w));
            assert(covered(tree, l));
        }
    }
    let after = cleared(now, level - 1, child);
    let next = partly_cleared(tree, level, word, k + 1);
    assert forall|l: int| 0 <= l < tree.len() implies #[trigger] after[l] == next[l] by {
        assert forall|w: int| 0 <= w < tree[l].len() implies #[trigger] after[l][w]
            == next[l][w] by {
            if l < level {
                lemma_ancestor_in_tree(tree, l, w, (level - 1 - l) as nat);
            }
        }
    }
    lemma_first_index(level, word, k);
    let a = first_index(level, word, k);
    let b = first_index(level, word, k + 1);
    assert forall|j: int| a <= j < b && 0 <= j < members(now).len() implies #[trigger] members(
        now,
    )[j] == members(tree)[j] by {
        lemma_span(j, (level - 1) as nat, child);
    }
    lemma_listing_same(members(now), members(tree), a, b);
}

proof fn lemma_first_level(tree: Seq<Seq<u64>>, word: int, k: int)
    ensures
        partly_cleared(tree, 0, word, k) == partly_cleared(tree, 0, word, k + 1),
{
    let now = partly_cleared(tree, 0, word, k);
    let next = partly_cleared(tree, 0, word, k + 1);
    assert forall|l: int| 0 <= l < tree.len() implies #[trigger] now[l] == next[l] by {}
}

/// Taking the root clears the whole tree, and finds every index.
proof fn lemma_take_root(tree: Seq<Seq<u64>>)
    requires
        shaped(tree),
        tight(tree),
        linked(tree),
    ensures
        bounded(tree),
        linked_below(tree, tree.len() - 1, 0),
        ({
            let after = cleared(tree, tree.len() - 1, 0);
            let flags = members(tree);
            &&& shaped(after) && tight(after) && linked(after)
            &&& members(after).len() == flags.len()
            &&& none_set(members(after))
            &&& listing(flags, 0, span((tree.len() - 1) as nat)) == listing(
                flags,
                0,
                flags.len() as int,
            )
        }),
{
    let top = tree.len() - 1;
    let after = cleared(tree, top, 0);
    let flags = members(tree);
    lemma_zero_word();
    lemma_same_shape(tree, after);
    assert forall|l: int, w: int|
        0 <= l < tree.len() && 0 <= w < tree[l].len() implies #[trigger] after[l][w] == 0 by {
        lemma_ancestor_in_tree(tree, l, w, (top - l) as nat);
    }
    let last = flags.len() - 1;
    lemma_ancestor_in_tree(tree, 0, last / 64, top as nat);
    lemma_span(last, top as nat, 0);
    lemma_listing_split(flags, 0, flags.len() as int, span(top as nat));
    lemma_listing_empty(flags, flags.len() as int, span(top as nat));
}

proof fn lemma_take_ends(tree: Seq<Seq<u64>>, level: int, word: int)
    requires
        shaped(tree),
        0 <= level < tree.len(),
        0 <= word < tree[level].len(),
    ensures
        without_word(tree, level, word) == partly_cleared(tree, level, word, 0),
        partly_cleared(tree, level, word, 64) == cleared(tree, level, word),
{
    let taken = without_word(tree, level, word);
    let first = partly_cleared(tree, level, word, 0);
    let last = partly_cleared(tree, level, word, 64);
    let clear = cleared(tree, level, word);
    assert forall|l: int| 0 <= l < tree.len() implies #[trigger] taken[l] == first[l] by {}
    assert forall|l: int| 0 <= l < tree.len() implies #[trigger] last[l] == clear[l] by {
        assert forall|w: int| 0 <= w < tree[l].len() implies #[trigger] last[l][w]
            == clear[l][w] by {
            if l < level {
                lemma_ancestor_step(w, (level - 1 - l) as nat);
            }
        }
    }
}

/// Whether `tree` is what an insertion of `target` into `start` has made of it
/// when it goes on to set the bit of `index` in `level`.
#[verifier::opaque]
spec fn inserting(
    start: Seq<Seq<u64>>,
    tree: Seq<Seq<u64>>,
    target: int,
    level: int,
    index: int,
) -> bool {
    let inserted = members(start).update(target, true);
    &&& shaped(start) && tight(start) && linked(start)
    &&& 0 <= target < members(start).len()
    &&& shaped(tree) && tight(tree)
    &&& tree.len() == start.len()
    &&& forall|l: int| level <= l < start.len() ==> #[trigger] tree[l] == start[l]
    &&& if level == 0 {
        tree == start && index == target
    } else if level < start.len() {
        &&& members(tree) == inserted
        &&& 0 <= index < tree[level - 1].len()
        &&& tree[level - 1][index] != 0
        &&& linked_but(tree, Set::empty().insert((level - 1, index)))
    } else {
        &&& members(tree) == inserted
        &&& linked(tree)
        &&& start.last()[0] == 0
    }
}

proof fn lemma_insert_level(
    start: Seq<Seq<u64>>,
    tree: Seq<Seq<u64>>,
    target: int,
    level: int,
    index: int,
)
    requires
        inserting(start, tree, target, level, index),
        0 <= level < start.len(),
    ensures
        0 <= index < 64 * tree[level].len(),
        tree[level][index / 64] == 0 ==> inserting(
            start,
            with_bit(tree, level, index),
            target,
            level + 1,
            index / 64,
        ),
        tree[level][index / 64] != 0 ==> {
            let after = with_bit(tree, level, index);
            &&& shaped(after) && tight(after) && linked(after)
            &&& members(after) == members(start).update(target, true)
            &&& start.last()[0] != 0
        },
{
    reveal(inserting);
    let open_words: Set<(int, int)> = if level == 0 {
        Set::empty()
    } else {
        Set::empty().insert((level - 1, index))
    };
    if level > 0 {
        assert(covered(tree, level - 1));
    }
    lemma_insert_step(tree, open_words, level, index);
    lemma_tight_step(tree, level, index);
    lemma_members_with_bit(tree, level, index);
    if tree[level][index / 64] != 0 {
        lemma_zero_root(start);
    }
}

/// A set of indices, as a tree of bit sets: the first level has a bit for each
/// index, each further level has a bit for each word of the level below it, and
/// the last level (the root) is a single word.
pub struct ReadySet {
    levels: Vec<Vec<u64>>,
}

impl View for ReadySet {
    type V = Seq<bool>;

    /// For each index, whether it is in the set.
    open spec fn view(&self) -> Seq<bool> {
        members(self.tree())
    }
}

fn zero_words(count: usize) -> (words: Vec<u64>)
    ensures
        words@ == Seq::new(count as nat, |i: int| 0u64),
{
    let mut words: Vec<u64> = Vec::new();
    while words.len() < count
        invariant
            words.len() <= count,
            words@ == Seq::new(words.len() as nat, |i: int| 0u64),
        decreases count - words.len(),
    {
        words.push(0);
    }
    words
}

impl ReadySet {
    /// The words of the levels.
    pub closed spec fn tree(&self) -> Seq<Seq<u64>> {
        Seq::new(self.levels@.len(), |l: int| self.levels@[l]@)
    }

    /// Whether the levels form a tree in which every set bit can be reached from
    /// the root, and every bit above the first level leads to one in it.
    pub open spec fn wf(&self) -> bool {
        &&& shaped(self.tree())
        &&& tight(self.tree())
        &&& linked(self.tree())
    }

    /// The empty set of indices below `len`.
    pub fn new(len: usize) -> (set: Self)
        requires
            len + 64 <= usize::MAX,
        ensures
            set.wf(),
            set@.len() == 64 * (if len == 0 {
                1
            } else {
                (len + 63) / 64
            }),
            none_set(set@),
    {
        let mut levels: Vec<Vec<u64>> = Vec::new();
        let mut bits: usize = len;
        let mut words: usize = 0;
        loop
            invariant_except_break
                levels.len() > 0 ==> words > 1 && bits == words && levels@.last().len() == words,
                levels.len() == 0 ==> bits == len,
            invariant
                bits + 64 <= usize::MAX,
                levels.len() > 0 ==> levels@[0].len() == (if len == 0 {
                    1
                } else {
                    (len + 63) / 64
                }),
                len + 64 <= usize::MAX,
                forall|l: int|
                    0 <= l < levels.len() ==> 1 <= (#[trigger] levels@[l]).len()
                        && levels@[l].len() * 64 <= usize::MAX,
                forall|l: int, m: int|
                    0 <= l && m == l + 1 && m < levels.len() ==> (#[trigger] levels@[l]).len() <= 64
                        * (#[trigger] levels@[m]).len(),
                forall|l: int, w: int|
                    0 <= l < levels.len() && 0 <= w < levels@[l].len() ==> #[trigger] levels@[l]@[w]
                        == 0,
            ensures
                levels.len() > 0,
                levels@.last().len() == 1,
            decreases bits,
        {
            words = (bits + BITS - 1) / BITS;
            if words == 0 {
                words = 1;
            }
            levels.push(zero_words(words));
            if words == 1 {
                break;
            }
            bits = words;
        }
        let set = ReadySet { levels };
        proof {
            lemma_zero_word();
        }
        set
    }

    /// Sets the bit of `index` in `level`, and tells whether its word was zero.
    fn set_bit(&mut self, level: usize, index: usize) -> (first: bool)
        requires
            level < old(self).tree().len(),
            index < 64 * old(self).tree()[level as int].len(),
        ensures
            final(self).tree() == with_bit(old(self).tree(), level as int, index as int),
            first == (old(self).tree()[level as int][index as int / 64] == 0),
    {
        let word: usize = index / BITS;
        let previous: u64 = self.levels[level][word];
        self.levels[level][word] = previous | (1u64 << ((index % BITS) as u64));
        previous == 0
    }

    /// Sets word `word` of `level` to zero, and returns what it was.
    fn take_bits(&mut self, level: usize, word: usize) -> (bits: u64)
        requires
            level < old(self).tree().len(),
            word < old(self).tree()[level as int].len(),
        ensures
            final(self).tree() == without_word(old(self).tree(), level as int, word as int),
            bits == old(self).tree()[level as int][word as int],
    {
        let bits: u64 = self.levels[level][word];
        self.levels[level][word] = 0;
        bits
    }

    /// Inserts `index`. Returns whether this changed the root word from zero,
    /// which is when the caller must make sure that the set is taken from.
    pub fn insert(&mut self, index: usize) -> (woke: bool)
        requires
            old(self).wf(),
            index < old(self)@.len(),
        ensures
            final(self).wf(),
            final(self)@ == old(self)@.update(index as int, true),
            woke == none_set(old(self)@),
    {
        let ghost start = self.tree();
        let mut at: usize = index;
        let mut level: usize = 0;
        proof {
            lemma_root(start);
            reveal(inserting);
        }
        while level < self.levels.len()
            invariant
                level <= start.len(),
                start == old(self).tree(),
                start.len() == self.tree().len(),
                start.last()[0] == 0 <==> none_set(members(start)),
                inserting(start, self.tree(), index as int, level as int, at as int),
            decreases start.len() - level,
        {
            proof {
                lemma_insert_level(start, self.tree(), index as int, level as int, at as int);
            }
            if !self.set_bit(level, at) {
                return false;
            }
            at = at / BITS;
            level = level + 1;
        }
        proof {
            reveal(inserting);
        }
        true
    }

    /// Returns whether `index` is in the set.
    pub fn contains(&self, index: usize) -> (found: bool)
        requires
            self.wf(),
            index < self@.len(),
        ensures
            found == self@[index as int],
    {
        let word: u64 = self.levels[0][index / BITS];
        (word >> ((index % BITS) as u64)) & 1 == 1
    }

    /// Returns whether the root word is zero.
    pub fn is_empty(&self) -> (empty: bool)
        requires
            self.wf(),
        ensures
            empty == none_set(self@),
    {
        proof {
            lemma_root(self.tree());
        }
        let top: usize = self.levels.len() - 1;
        let root: u64 = self.levels[top][0];
        root == 0
    }

    /// Removes all indices from the set and appends them to `out`, in ascending
    /// order.
    pub fn take_all(&mut self, out: &mut Vec<usize>)
        requires
            old(self).wf(),
        ensures
            final(self).wf(),
            final(self)@.len() == old(self)@.len(),
            none_set(final(self)@),
            final(out)@ == old(out)@ + listing(old(self)@, 0, old(self)@.len() as int),
    {
        proof {
            lemma_take_root(self.tree());
        }
        let top: usize = self.levels.len() - 1;
        self.take_word(top, 0, out);
    }

    fn take_word(&mut self, level: usize, word: usize, out: &mut Vec<usize>)
        requires
            shaped(old(self).tree()),
            bounded(old(self).tree()),
            level < old(self).tree().len(),
            word < old(self).tree()[level as int].len(),
            linked_below(old(self).tree(), level as int, word as int),
        ensures
            final(self).tree() == cleared(old(self).tree(), level as int, word as int),
            final(out)@ == old(out)@ + listing(
                members(old(self).tree()),
                word * span(level as nat),
                (word + 1) * span(level as nat),
            ),
        decreases level,
    {
        let ghost tree = self.tree();
        let ghost flags = members(tree);
        let ghost found = out@;
        let ghost start = first_index(level as int, word as int, 0);
        let ghost taken = tree[level as int][word as int];
        let ghost mut next: int = 0;
        // A word is always taken before the words below it, so that bits set in
        // them after this point are reachable from a bit set above.
        let mut bits: u64 = self.take_bits(level, word);
        proof {
            lemma_take_ends(tree, level as int, word as int);
            lemma_first_index(level as int, word as int, 0);
        }
        while bits != 0
            invariant
                tree == old(self).tree(),
                shaped(tree),
                bounded(tree),
                level < tree.len(),
                word < tree[level as int].len(),
                linked_below(tree, level as int, word as int),
                flags == members(tree),
                start == first_index(level as int, word as int, 0),
                taken == tree[level as int][word as int],
                0 <= next <= 64,
                forall|k: int| #[trigger] bit(bits, k) == (bit(taken, k) && k >= next),
                self.tree() == partly_cleared(tree, level as int, word as int, next),
                out@ == found + listing(
                    flags,
                    start,
                    first_index(level as int, word as int, next),
                ),
            decreases 64 - next,
        {
            let ghost k = bits.trailing_zeros() as int;
            proof {
                lemma_lowest_bit(bits);
                assert forall|j: int| next <= j < k implies !#[trigger] bit(taken, j) by {
                    assert(!bit(bits, j));
                }
                lemma_skip(tree, level as int, word as int, next, k);
                lemma_first_index(level as int, word as int, k);
                lemma_listing_split(
                    flags,
                    start,
                    first_index(level as int, word as int, k),
                    first_index(level as int, word as int, k + 1),
                );
            }
            let index: usize = word * BITS + bits.trailing_zeros() as usize;
            bits = bits & (bits - 1);
            if level == 0 {
                proof {
                    lemma_first_level(tree, word as int, k);
                }
                out.push(index);
            } else {
                proof {
                    lemma_descend(tree, level as int, word as int, k);
                }
                self.take_word(level - 1, index, out);
            }
            proof {
                next = k + 1;
            }
        }
        proof {
            assert forall|j: int| next <= j < 64 implies !#[trigger] bit(taken, j) by {
                lemma_zero_word();
                assert(!bit(bits, j));
            }
            lemma_skip(tree, level as int, word as int, next, 64);
        }
    }
}

} // verus!
