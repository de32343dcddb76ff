//! Page ordering rules and the updates of a manual: which updates are in
//! order, and how to put the others in order.

use crate::text::{
    digit_runs, good_numbers, lines, number_at, parse_byte, parse_number, read_digit_runs,
    read_numbers, split_lines, views,
};
use vstd::pervasive::unreached;
use vstd::prelude::*;
use vstd::seq_lib::{to_multiset_insert, to_multiset_remove};
use vstd::slice::slice_to_vec;
use vstd::string::*;

verus! {

/// The page `left` has to be printed before the page `right`.
#[derive(Clone, Copy, Debug, PartialEq, Eq, Structural)]
pub struct PageOrderingRule {
    pub left: usize,
    pub right: usize,
}

impl PageOrderingRule {
    /// The rule is about the two pages `x` and `y`.
    pub open spec fn relates(self, x: usize, y: usize) -> bool {
        (self.left == x && self.right == y) || (self.left == y && self.right == x)
    }

    /// Tells whether the rule is about the two pages `x` and `y`.
    pub fn is_relevant_rule(&self, x: usize, y: usize) -> (r: bool)
        ensures
            r == self.relates(x, y),
    {
        (self.left == x && self.right == y) || (self.left == y && self.right == x)
    }
}

/// Both pages of `rule` are among `pages`.
pub open spec fn applies(rule: PageOrderingRule, pages: Seq<usize>) -> bool {
    pages.contains(rule.left) && pages.contains(rule.right)
}

/// Those among the first `n` of `rules` that apply to `pages`, in their
/// order.
pub open spec fn relevant_rules(rules: Seq<PageOrderingRule>, pages: Seq<usize>, n: nat) -> Seq<
    PageOrderingRule,
>
    decreases n,
{
    if n == 0 {
        Seq::empty()
    } else if applies(rules[n - 1], pages) {
        relevant_rules(rules, pages, (n - 1) as nat).push(rules[n - 1])
    } else {
        relevant_rules(rules, pages, (n - 1) as nat)
    }
}

/// The rules that the references in `refs` point to.
pub open spec fn pointees(refs: Seq<&PageOrderingRule>) -> Seq<PageOrderingRule> {
    refs.map_values(|r: &PageOrderingRule| *r)
}

/// A rule is relevant exactly if it is one of the rules and applies.
pub proof fn lemma_relevant_members(
    rules: Seq<PageOrderingRule>,
    pages: Seq<usize>,
    n: nat,
    rule: PageOrderingRule,
)
    requires
        n <= rules.len(),
    ensures
        relevant_rules(rules, pages, n).contains(rule) <==> applies(rule, pages) && rules.take(
            n as int,
        ).contains(rule),
    decreases n,
{
    if n > 0 {
        let before = relevant_rules(rules, pages, (n - 1) as nat);
        lemma_relevant_members(rules, pages, (n - 1) as nat, rule);
        let now = relevant_rules(rules, pages, n);
        let front = rules.take(n - 1);
        let upto = rules.take(n as int);
        let last = rules[n - 1];
        assert(upto =~= front.push(last));
        if upto.contains(rule) {
            let k = choose|k: int| 0 <= k < upto.len() && upto[k] == rule;
            if k < n - 1 {
                assert(front[k] == rule);
            }
        }
        if front.contains(rule) {
            let k = choose|k: int| 0 <= k < front.len() && front[k] == rule;
            assert(upto[k] == rule);
        }
        assert(upto[n - 1] == last);
        if applies(last, pages) {
            assert(now =~= before.push(last));
            assert(now[now.len() - 1] == last);
            if before.contains(rule) {
                let k = choose|k: int| 0 <= k < before.len() && before[k] == rule;
                assert(now[k] == rule);
            }
            if now.contains(rule) {
                let k = choose|k: int| 0 <= k < now.len() && now[k] == rule;
                if k < before.len() {
                    assert(before[k] == rule);
                }
            }
        }
    }
}

/// In `pages`, the page `a` stands before every place where the page `b`
/// stands.
pub open spec fn comes_first(pages: Seq<usize>, a: usize, b: usize) -> bool {
    exists|i: int|
        0 <= i < pages.len() && #[trigger] pages[i] == a && forall|j: int|
            0 <= j <= i ==> pages[j] != b
}

/// Every rule that applies to `pages` is kept by them.
pub open spec fn correct_order(rules: Seq<PageOrderingRule>, pages: Seq<usize>) -> bool {
    forall|k: int|
        0 <= k < rules.len() && applies(#[trigger] rules[k], pages) ==> comes_first(
            pages,
            rules[k].left,
            rules[k].right,
        )
}

/// A rule asks for the page `a` before another page `b`.
pub open spec fn must_precede(rules: Seq<PageOrderingRule>, a: usize, b: usize) -> bool {
    a != b && rules.contains(PageOrderingRule { left: a, right: b })
}

/// No rule asks for another of `pages` before the page at `i`.
pub open spec fn unblocked(rules: Seq<PageOrderingRule>, pages: Seq<usize>, i: int) -> bool {
    forall|j: int| 0 <= j < pages.len() ==> !must_precede(rules, #[trigger] pages[j], pages[i])
}

/// The first place before `n` whose page is unblocked, or `n` where there
/// is none.
pub open spec fn first_unblocked(rules: Seq<PageOrderingRule>, pages: Seq<usize>, n: nat) -> nat
    decreases n,
{
    if n == 0 {
        0
    } else {
        let before = first_unblocked(rules, pages, (n - 1) as nat);
        if before < n - 1 {
            before
        } else if unblocked(rules, pages, n - 1) {
            (n - 1) as nat
        } else {
            n
        }
    }
}

/// The place of the page that is printed first: the first unblocked one,
/// or the first of all where every page is blocked.
pub open spec fn pick(rules: Seq<PageOrderingRule>, pages: Seq<usize>) -> int {
    let first = first_unblocked(rules, pages, pages.len());
    if first < pages.len() {
        first as int
    } else {
        0
    }
}

/// `pages` put in order: the page at `pick` first, then the others put in
/// order in the same way.
pub open spec fn ordered(rules: Seq<PageOrderingRule>, pages: Seq<usize>) -> Seq<usize>
    decreases pages.len(),
{
    if pages.len() == 0 {
        Seq::empty()
    } else {
        let i = pick(rules, pages);
        seq![pages[i]] + ordered(rules, pages.remove(i))
    }
}

/// Putting pages in order loses no page and adds none.
pub proof fn lemma_ordered_permutes(rules: Seq<PageOrderingRule>, pages: Seq<usize>)
    ensures
        ordered(rules, pages).to_multiset() == pages.to_multiset(),
    decreases pages.len(),
{
    if pages.len() > 0 {
        let i = pick(rules, pages);
        let rest = pages.remove(i);
        lemma_ordered_permutes(rules, rest);
        let tail = ordered(rules, rest);
        assert(ordered(rules, pages) =~= tail.insert(0, pages[i]));
        to_multiset_insert(tail, 0, pages[i]);
        to_multiset_remove(pages, i);
        pages.to_multiset_ensures();
        assert(pages.to_multiset().count(pages[i]) > 0);
        assert(rest.to_multiset().insert(pages[i]) =~= pages.to_multiset());
    } else {
        assert(ordered(rules, pages) =~= pages);
    }
}

/// At every stage of putting `pages` in order some page is unblocked.
pub open spec fn settles(rules: Seq<PageOrderingRule>, pages: Seq<usize>) -> bool
    decreases pages.len(),
{
    pages.len() == 0 || (unblocked(rules, pages, pick(rules, pages)) && settles(
        rules,
        pages.remove(pick(rules, pages)),
    ))
}

/// No rule asks for a page before itself.
pub open spec fn no_rule_names_a_page_twice(rules: Seq<PageOrderingRule>) -> bool {
    forall|k: int| 0 <= k < rules.len() ==> (#[trigger] rules[k]).left != rules[k].right
}

/// Where at every stage some page is unblocked, and no rule names one page
/// twice, the pages put in order keep every rule that applies to them.
pub proof fn lemma_ordered_keeps_rules(rules: Seq<PageOrderingRule>, pages: Seq<usize>)
    requires
        settles(rules, pages),
        no_rule_names_a_page_twice(rules),
    ensures
        correct_order(rules, ordered(rules, pages)),
    decreases pages.len(),
{
    let out = ordered(rules, pages);
    if pages.len() > 0 {
        let i = pick(rules, pages);
        let first = pages[i];
        let rest = pages.remove(i);
        let tail = ordered(rules, rest);
        lemma_ordered_keeps_rules(rules, rest);
        lemma_ordered_permutes(rules, pages);
        lemma_ordered_permutes(rules, rest);
        assert(out =~= seq![first] + tail);
        assert forall|k: int| 0 <= k < rules.len() && applies(#[trigger] rules[k], out)
            implies comes_first(out, rules[k].left, rules[k].right) by {
            let rule = rules[k];
            out.to_multiset_ensures();
            pages.to_multiset_ensures();
            tail.to_multiset_ensures();
            rest.to_multiset_ensures();
            assert(out.contains(rule.left) && out.contains(rule.right));
            assert(out.to_multiset().count(rule.left) > 0);
            assert(pages.to_multiset().count(rule.left) > 0);
            if rule.right == first {
                assert(pages.contains(rule.left));
                let j = choose|j: int| 0 <= j < pages.len() && pages[j] == rule.left;
                assert(rules.contains(rule));
                assert(must_precede(rules, pages[j], pages[i]));
                assert(false);
            } else if rule.left == first {
                assert(out[0] == first);
            } else {
                assert(tail.contains(rule.left)) by {
                    let a = choose|a: int| 0 <= a < out.len() && out[a] == rule.left;
                    assert(a > 0);
                    assert(tail[a - 1] == rule.left);
                }
                assert(tail.contains(rule.right)) by {
                    let b = choose|b: int| 0 <= b < out.len() && out[b] == rule.right;
                    assert(b > 0);
                    assert(tail[b - 1] == rule.right);
                }
                assert(applies(rules[k], tail));
                let w = choose|w: int|
                    0 <= w < tail.len() && #[trigger] tail[w] == rule.left && forall|j: int|
                        0 <= j <= w ==> tail[j] != rule.right;
                assert(out[w + 1] == rule.left);
                assert forall|j: int| 0 <= j <= w + 1 implies out[j] != rule.right by {
                    if j > 0 {
                        assert(out[j] == tail[j - 1]);
                    }
                }
            }
        }
    }
}

/// Whether `x` is among `pages`.
pub fn holds(pages: &[usize], x: usize) -> (b: bool)
    ensures
        b == pages@.contains(x),
{
    let mut i: usize = 0;
    while i < pages.len()
        invariant
            i <= pages@.len(),
            forall|j: int| 0 <= j < i ==> pages@[j] != x,
        decreases pages@.len() - i,
    {
        if pages[i] == x {
            return true;
        }
        i = i + 1;
    }
    false
}

/// The first place of `x` in `pages`.
pub fn position(pages: &[usize], x: usize) -> (r: Option<usize>)
    ensures
        match r {
            Some(i) => i < pages@.len() && pages@[i as int] == x && forall|j: int|
                0 <= j < i ==> pages@[j] != x,
            None => !pages@.contains(x),
        },
{
    let mut i: usize = 0;
    while i < pages.len()
        invariant
            i <= pages@.len(),
            forall|j: int| 0 <= j < i ==> pages@[j] != x,
        decreases pages@.len() - i,
    {
        if pages[i] == x {
            return Some(i);
        }
        i = i + 1;
    }
    None
}

/// Whether one of `relevant` asks for the page `a` before another page `b`.
fn asks(relevant: &Vec<&PageOrderingRule>, a: usize, b: usize) -> (r: bool)
    ensures
        r == must_precede(pointees(relevant@), a, b),
{
    if a == b {
        return false;
    }
    let mut k: usize = 0;
    while k < relevant.len()
        invariant
            a != b,
            k <= relevant@.len(),
            forall|j: int|
                0 <= j < k ==> pointees(relevant@)[j] != (PageOrderingRule { left: a, right: b }),
        decreases relevant@.len() - k,
    {
        let rule = relevant[k];
        assert(pointees(relevant@)[k as int] == *rule);
        if rule.left == a && rule.right == b {
            assert(pointees(relevant@)[k as int] == (PageOrderingRule { left: a, right: b }));
            return true;
        }
        k = k + 1;
    }
    false
}

/// Among pages that the rules were chosen for, the relevant rules ask what
/// all the rules ask.
proof fn lemma_relevant_ask_the_same(
    rules: Seq<PageOrderingRule>,
    pages: Seq<usize>,
    a: usize,
    b: usize,
)
    requires
        pages.contains(a),
        pages.contains(b),
    ensures
        must_precede(relevant_rules(rules, pages, rules.len()), a, b) == must_precede(rules, a, b),
{
    lemma_relevant_members(rules, pages, rules.len(), PageOrderingRule { left: a, right: b });
    assert(rules.take(rules.len() as int) =~= rules);
}

/// Finds the place of the page of `remaining` that is printed first.
fn pick_first(
    relevant: &Vec<&PageOrderingRule>,
    remaining: &Vec<usize>,
    Ghost(rules): Ghost<Seq<PageOrderingRule>>,
    Ghost(pages): Ghost<Seq<usize>>,
) -> (r: usize)
    requires
        remaining@.len() > 0,
        pointees(relevant@) == relevant_rules(rules, pages, rules.len()),
        forall|j: int| 0 <= j < remaining@.len() ==> pages.contains(#[trigger] remaining@[j]),
    ensures
        r == pick(rules, remaining@),
        r < remaining@.len(),
{
    let mut i: usize = 0;
    while i < remaining.len()
        invariant
            i <= remaining@.len(),
            first_unblocked(rules, remaining@, i as nat) == i,
            pointees(relevant@) == relevant_rules(rules, pages, rules.len()),
            forall|j: int| 0 <= j < remaining@.len() ==> pages.contains(#[trigger] remaining@[j]),
        decreases remaining@.len() - i,
    {
        let mut free = true;
        let mut j: usize = 0;
        while j < remaining.len() && free
            invariant
                i < remaining@.len(),
                j <= remaining@.len(),
                pointees(relevant@) == relevant_rules(rules, pages, rules.len()),
                forall|j: int|
                    0 <= j < remaining@.len() ==> pages.contains(#[trigger] remaining@[j]),
                free ==> forall|k: int|
                    0 <= k < j ==> !must_precede(
                        rules,
                        #[trigger] remaining@[k],
                        remaining@[i as int],
                    ),
                !free ==> !unblocked(rules, remaining@, i as int),
            decreases remaining@.len() - j + if free { 1int } else { 0int },
        {
            proof {
                lemma_relevant_ask_the_same(
                    rules,
                    pages,
                    remaining@[j as int],
                    remaining@[i as int],
                );
            }
            if asks(relevant, remaining[j], remaining[i]) {
                free = false;
            } else {
                j = j + 1;
            }
        }
        if free {
            proof {
                lemma_first_unblocked_stays(rules, remaining@, (i + 1) as nat, remaining@.len());
            }
            return i;
        }
        i = i + 1;
    }
    0
}

/// Once an unblocked page is found, later pages change nothing.
pub proof fn lemma_first_unblocked_stays(
    rules: Seq<PageOrderingRule>,
    pages: Seq<usize>,
    n: nat,
    m: nat,
)
    requires
        n <= m,
        first_unblocked(rules, pages, n) < n,
    ensures
        first_unblocked(rules, pages, m) == first_unblocked(rules, pages, n),
    decreases m,
{
    if n < m {
        lemma_first_unblocked_stays(rules, pages, n, (m - 1) as nat);
    }
}

/// What a set of page ordering rules can be asked.
pub trait PageOrderingRules {
    /// The rules of the set.
    spec fn rules(&self) -> Seq<PageOrderingRule>;

    /// The rules that apply to `pages`.
    fn get_relevant_rules(&self, pages: &[usize]) -> (r: Vec<&PageOrderingRule>)
        ensures
            pointees(r@) == relevant_rules(self.rules(), pages@, self.rules().len()),
    ;

    /// Tells whether `pages` keep every rule that applies to them.
    fn has_correct_order(&self, pages: &[usize]) -> (r: bool)
        ensures
            r == correct_order(self.rules(), pages@),
    ;

    /// Puts `pages` in order: again and again the first page is taken that
    /// no rule wants behind another page that is left.
    fn sort_pages(&self, pages: &[usize]) -> (r: Vec<usize>)
        ensures
            r@ == ordered(self.rules(), pages@),
            r@.to_multiset() == pages@.to_multiset(),
            settles(self.rules(), pages@) && no_rule_names_a_page_twice(self.rules())
                ==> correct_order(self.rules(), r@),
    ;
}

impl PageOrderingRules for Vec<PageOrderingRule> {
    open spec fn rules(&self) -> Seq<PageOrderingRule> {
        self@
    }

    fn get_relevant_rules(&self, pages: &[usize]) -> (r: Vec<&PageOrderingRule>) {
        let mut out: Vec<&PageOrderingRule> = Vec::new();
        let mut i: usize = 0;
        assert(pointees(out@) =~= Seq::empty());
        while i < self.len()
            invariant
                i <= self@.len(),
                pointees(out@) == relevant_rules(self@, pages@, i as nat),
            decreases self@.len() - i,
        {
            let rule = &self[i];
            if holds(pages, rule.left) && holds(pages, rule.right) {
                assert(pointees(out@.push(rule)) =~= pointees(out@).push(*rule));
                out.push(rule);
            }
            i = i + 1;
        }
        out
    }

    fn has_correct_order(&self, pages: &[usize]) -> (r: bool) {
        let relevant = self.get_relevant_rules(pages);
        let mut i: usize = 0;
        while i < relevant.len()
            invariant
                i <= relevant@.len(),
                pointees(relevant@) == relevant_rules(self@, pages@, self@.len()),
                forall|k: int|
                    0 <= k < i ==> comes_first(
                        pages@,
                        #[trigger] pointees(relevant@)[k].left,
                        pointees(relevant@)[k].right,
                    ),
            decreases relevant@.len() - i,
        {
            let rule = relevant[i];
            assert(pointees(relevant@)[i as int] == *rule);
            let right = position(pages, rule.right);
            let left = position(pages, rule.left);
            let kept = match (left, right) {
                (Some(l), Some(r)) => l < r,
                _ => false,
            };
            proof {
                assert(pointees(relevant@).contains(*rule));
                lemma_relevant_members(self@, pages@, self@.len(), *rule);
                assert(self@.take(self@.len() as int) =~= self@);
            }
            if !kept {
                proof {
                    let l = left->0 as int;
                    let r = right->0 as int;
                    assert(!comes_first(pages@, rule.left, rule.right)) by {
                        if comes_first(pages@, rule.left, rule.right) {
                            let w = choose|w: int|
                                0 <= w < pages@.len() && #[trigger] pages@[w] == rule.left
                                    && forall|j: int| 0 <= j <= w ==> pages@[j] != rule.right;
                            assert(w >= l);
                            assert(pages@[r] == rule.right);
                        }
                    }
                    let k = choose|k: int| 0 <= k < self@.len() && self@[k] == *rule;
                    assert(applies(self@[k], pages@));
                }
                return false;
            }
            proof {
                let l = left->0 as int;
                assert(pages@[l] == rule.left);
            }
            i = i + 1;
        }
        proof {
            assert forall|k: int| 0 <= k < self@.len() && applies(#[trigger] self@[k], pages@)
                implies comes_first(pages@, self@[k].left, self@[k].right) by {
                lemma_relevant_members(self@, pages@, self@.len(), self@[k]);
                assert(self@.take(self@.len() as int) =~= self@);
                assert(self@.contains(self@[k]));
                let at = choose|at: int|
                    0 <= at < pointees(relevant@).len() && pointees(relevant@)[at]
                        == self@[k];
                assert(comes_first(
                    pages@,
                    pointees(relevant@)[at].left,
                    pointees(relevant@)[at].right,
                ));
            }
        }
        true
    }

    fn sort_pages(&self, pages: &[usize]) -> (r: Vec<usize>) {
        let relevant = self.get_relevant_rules(pages);
        let mut remaining = slice_to_vec(pages);
        let mut result: Vec<usize> = Vec::new();
        assert(result@ + ordered(self@, remaining@) =~= ordered(self@, pages@));
        while remaining.len() > 0
            invariant
                pointees(relevant@) == relevant_rules(self@, pages@, self@.len()),
                forall|j: int|
                    0 <= j < remaining@.len() ==> pages@.contains(#[trigger] remaining@[j]),
                ordered(self@, pages@) == result@ + ordered(self@, remaining@),
            decreases remaining@.len(),
        {
            let i = pick_first(&relevant, &remaining, Ghost(self@), Ghost(pages@));
            let ghost before = remaining@;
            let page = remaining.remove(i);
            assert(result@.push(page) + ordered(self@, remaining@) =~= result@ + (seq![page]
                + ordered(self@, remaining@)));
            result.push(page);
            assert forall|j: int| 0 <= j < remaining@.len() implies pages@.contains(
                #[trigger] remaining@[j],
            ) by {
                if j < i {
                    assert(remaining@[j] == before[j]);
                } else {
                    assert(remaining@[j] == before[j + 1]);
                }
            }
        }
        assert(result@ + Seq::<usize>::empty() =~= result@);
        proof {
            lemma_ordered_permutes(self@, pages@);
            if settles(self@, pages@) && no_rule_names_a_page_twice(self@) {
                lemma_ordered_keeps_rules(self@, pages@);
            }
        }
        result
    }
}

/// The rule at the start of `s` and how many bytes spell it: a number, a
/// bar and a number.
pub open spec fn rule_at(s: Seq<u8>) -> Option<(PageOrderingRule, int)> {
    match number_at(s) {
        None => None,
        Some((left, k1)) => if !(k1 < s.len() && s[k1] == 124) {
            None
        } else {
            match number_at(s.skip(k1 + 1)) {
                None => None,
                Some((right, k2)) => Some((PageOrderingRule { left, right }, k1 + 1 + k2)),
            }
        },
    }
}

/// The pages at the start of `s`: numbers with one comma between each two,
/// up to the first that is above `usize::MAX`.  `None` where there is not
/// one page at least.
pub open spec fn pages_at(s: Seq<u8>) -> Option<Seq<usize>> {
    let words = digit_runs(s, 44);
    let pages = good_numbers(words, words.len());
    if pages.len() > 0 {
        Some(pages)
    } else {
        None
    }
}

/// Reads a rule at the start of `input`.  Gives what follows it and the
/// rule.
pub fn parse_ordering_rule(input: &[u8]) -> (r: Option<(&[u8], PageOrderingRule)>)
    ensures
        match rule_at(input@) {
            Some((rule, used)) => {
                &&& 0 <= used <= input@.len()
                &&& r matches Some((rest, found)) && found == rule && rest@ == input@.skip(used)
            },
            None => r is None,
        },
{
    let (input1, left) = match parse_number(input) {
        Some(found) => found,
        None => {
            return None;
        },
    };
    let ghost first = number_at(input@).unwrap();
    let ghost k1 = first.1;
    assert(input1@.len() > 0 ==> input1@[0] == input@[k1]);
    let input2 = match parse_byte(input1, 124) {
        Some(rest) => rest,
        None => {
            return None;
        },
    };
    assert(input2@ =~= input@.skip(k1 + 1));
    let (input3, right) = match parse_number(input2) {
        Some(found) => found,
        None => {
            return None;
        },
    };
    let ghost second = number_at(input2@).unwrap();
    assert(input3@ =~= input@.skip(k1 + 1 + second.1));
    Some((input3, PageOrderingRule { left, right }))
}

/// Reads the pages of an update at the start of `input`.
pub fn parse_pages(input: &[u8]) -> (r: Option<Vec<usize>>)
    ensures
        match pages_at(input@) {
            Some(pages) => r matches Some(found) && found@ == pages,
            None => r is None,
        },
{
    let words = read_digit_runs(input, 0, 44);
    assert(input@.skip(0) =~= input@);
    let pages = read_numbers(&words);
    if pages.len() > 0 {
        Some(pages)
    } else {
        None
    }
}

/// What has been read of a manual: the rules, the updates, and whether the
/// empty line that ends the rules has been met.
pub struct Manual {
    pub rules: Seq<PageOrderingRule>,
    pub updates: Seq<Seq<usize>>,
    pub in_updates: bool,
}

/// Why a text is no manual.
#[derive(Clone, Copy, Debug, PartialEq, Eq, Structural)]
pub enum ManualError {
    /// The line `line` should hold a rule and holds none.
    BadRule { line: usize },
    /// The line `line` should hold an update and holds none.
    BadPages { line: usize },
}

/// The manual read from the first `n` of `rows`: rules up to the first
/// empty line that follows a rule, updates from there on.
pub open spec fn manual(rows: Seq<Seq<u8>>, n: nat) -> Result<Manual, ManualError>
    decreases n,
{
    if n == 0 {
        Ok(Manual { rules: Seq::empty(), updates: Seq::empty(), in_updates: false })
    } else {
        match manual(rows, (n - 1) as nat) {
            Err(e) => Err(e),
            Ok(m) => {
                let line = rows[n - 1];
                if m.in_updates {
                    match pages_at(line) {
                        Some(pages) => Ok(Manual { updates: m.updates.push(pages), ..m }),
                        None => Err(ManualError::BadPages { line: (n - 1) as usize }),
                    }
                } else if line.len() == 0 && m.rules.len() > 0 {
                    Ok(Manual { in_updates: true, ..m })
                } else {
                    match rule_at(line) {
                        Some((rule, _)) => Ok(Manual { rules: m.rules.push(rule), ..m }),
                        None => Err(ManualError::BadRule { line: (n - 1) as usize }),
                    }
                }
            },
        }
    }
}

/// Once reading the rows has failed, later rows change nothing.
pub proof fn lemma_manual_fails(rows: Seq<Seq<u8>>, n: nat, m: nat)
    requires
        n <= m,
        manual(rows, n) is Err,
    ensures
        manual(rows, m) == manual(rows, n),
    decreases m,
{
    if n < m {
        lemma_manual_fails(rows, n, (m - 1) as nat);
    }
}

/// The pages of each of `updates`.
pub open spec fn page_views(updates: Seq<Vec<usize>>) -> Seq<Seq<usize>> {
    updates.map_values(|pages: Vec<usize>| pages@)
}

/// The manual that `text` holds.
pub open spec fn manual_of(text: Seq<u8>) -> Result<Manual, ManualError> {
    manual(lines(text), lines(text).len())
}

/// Reads a manual: a rule on each line up to the first empty line, an
/// update on each line after it.  Fails on the first line that holds
/// neither.
pub fn checked_parse_input(input: &str) -> (r: Result<
    (Vec<PageOrderingRule>, Vec<Vec<usize>>),
    ManualError,
>)
    ensures
        match manual_of(input.spec_bytes()) {
            Ok(m) => r matches Ok((rules, updates)) && rules@ == m.rules && page_views(updates@)
                == m.updates,
            Err(e) => r matches Err(err) && err == e,
        },
{
    let rows = split_lines(input.as_bytes());
    let mut rules: Vec<PageOrderingRule> = Vec::new();
    let mut updates: Vec<Vec<usize>> = Vec::new();
    let mut in_updates = false;
    let mut i: usize = 0;
    assert(page_views(updates@) =~= Seq::empty());
    while i < rows.len()
        invariant
            views(rows@) == lines(input.spec_bytes()),
            i <= rows@.len(),
            manual(views(rows@), i as nat) == Ok::<Manual, ManualError>(
                Manual { rules: rules@, updates: page_views(updates@), in_updates },
            ),
        decreases rows@.len() - i,
    {
        let line = rows[i].as_slice();
        assert(views(rows@)[i as int] == line@);
        proof {
            if manual(views(rows@), (i + 1) as nat) is Err {
                lemma_manual_fails(views(rows@), (i + 1) as nat, rows@.len());
            }
        }
        if in_updates {
            match parse_pages(line) {
                Some(pages) => {
                    assert(page_views(updates@.push(pages)) =~= page_views(updates@).push(pages@));
                    updates.push(pages);
                },
                None => {
                    return Err(ManualError::BadPages { line: i });
                },
            }
        } else if line.len() == 0 && rules.len() > 0 {
            in_updates = true;
        } else {
            match parse_ordering_rule(line) {
                Some((_, rule)) => {
                    rules.push(rule);
                },
                None => {
                    return Err(ManualError::BadRule { line: i });
                },
            }
        }
        i = i + 1;
    }
    Ok((rules, updates))
}

/// Reads a manual whose every line holds what it should.
pub fn parse_input(input: &str) -> (r: (Vec<PageOrderingRule>, Vec<Vec<usize>>))
    requires
        manual_of(input.spec_bytes()) is Ok,
    ensures
        r.0@ == manual_of(input.spec_bytes())->Ok_0.rules,
        page_views(r.1@) == manual_of(input.spec_bytes())->Ok_0.updates,
{
    match checked_parse_input(input) {
        Ok(read) => read,
        Err(_) => unreached(),
    }
}

/// Why the updates give no sum.
#[derive(Clone, Copy, Debug, PartialEq, Eq, Structural)]
pub enum UpdateError {
    /// The update `update` holds no page, and so has no middle page.
    Empty { update: usize },
    /// With the middle page of the update `update` the sum is above
    /// `usize::MAX`.
    TooLarge { update: usize },
}

/// The page in the middle of `pages`.
pub open spec fn middle(pages: Seq<usize>) -> usize {
    pages[(pages.len() / 2) as int]
}

/// The sum of the middle pages over the first `n` of `updates`: with
/// `sorting` unset, of those that are in order as they stand; with
/// `sorting` set, of the others, once they are put in order.
pub open spec fn middle_total(
    rules: Seq<PageOrderingRule>,
    updates: Seq<Seq<usize>>,
    sorting: bool,
    n: nat,
) -> Result<usize, UpdateError>
    decreases n,
{
    if n == 0 {
        Ok(0)
    } else {
        match middle_total(rules, updates, sorting, (n - 1) as nat) {
            Err(e) => Err(e),
            Ok(sum) => {
                let pages = updates[n - 1];
                if correct_order(rules, pages) == sorting {
                    Ok(sum)
                } else if pages.len() == 0 {
                    Err(UpdateError::Empty { update: (n - 1) as usize })
                } else {
                    let page = if sorting {
                        middle(ordered(rules, pages))
                    } else {
                        middle(pages)
                    };
                    if sum + page > usize::MAX {
                        Err(UpdateError::TooLarge { update: (n - 1) as usize })
                    } else {
                        Ok((sum + page) as usize)
                    }
                }
            },
        }
    }
}

/// Once the sum has failed, later updates change nothing.
pub proof fn lemma_middle_total_fails(
    rules: Seq<PageOrderingRule>,
    updates: Seq<Seq<usize>>,
    sorting: bool,
    n: nat,
    m: nat,
)
    requires
        n <= m,
        middle_total(rules, updates, sorting, n) is Err,
    ensures
        middle_total(rules, updates, sorting, m) == middle_total(rules, updates, sorting, n),
    decreases m,
{
    if n < m {
        lemma_middle_total_fails(rules, updates, sorting, n, (m - 1) as nat);
    }
}

/// Putting pages in order gives as many pages as there were.
pub proof fn lemma_ordered_len(rules: Seq<PageOrderingRule>, pages: Seq<usize>)
    ensures
        ordered(rules, pages).len() == pages.len(),
    decreases pages.len(),
{
    if pages.len() > 0 {
        lemma_ordered_len(rules, pages.remove(pick(rules, pages)));
    }
}

/// Sums the middle pages of the updates: with `sorting` unset, of those
/// that are in order; with `sorting` set, of the others, put in order.
pub fn checked_solve(rules: &Vec<PageOrderingRule>, manual: &Vec<Vec<usize>>, sorting: bool) -> (r:
    Result<usize, UpdateError>)
    ensures
        r == middle_total(rules@, page_views(manual@), sorting, manual@.len()),
{
    let mut count: usize = 0;
    let mut i: usize = 0;
    while i < manual.len()
        invariant
            i <= manual@.len(),
            middle_total(rules@, page_views(manual@), sorting, i as nat) == Ok::<
                usize,
                UpdateError,
            >(count),
        decreases manual@.len() - i,
    {
        let pagelist = manual[i].as_slice();
        assert(page_views(manual@)[i as int] == pagelist@);
        proof {
            if middle_total(rules@, page_views(manual@), sorting, (i + 1) as nat) is Err {
                lemma_middle_total_fails(
                    rules@,
                    page_views(manual@),
                    sorting,
                    (i + 1) as nat,
                    manual@.len(),
                );
            }
            lemma_ordered_len(rules@, pagelist@);
        }
        if rules.has_correct_order(pagelist) != sorting {
            if pagelist.len() == 0 {
                return Err(UpdateError::Empty { update: i });
            }
            let middle_page = if sorting {
                let sorted_pages = rules.sort_pages(pagelist);
                sorted_pages[sorted_pages.len() / 2]
            } else {
                pagelist[pagelist.len() / 2]
            };
            match count.checked_add(middle_page) {
                Some(sum) => {
                    count = sum;
                },
                None => {
                    return Err(UpdateError::TooLarge { update: i });
                },
            }
        }
        i = i + 1;
    }
    Ok(count)
}

/// The sum of the middle pages of the updates that are in order.
pub fn solve_part_1(rules: &Vec<PageOrderingRule>, manual: &Vec<Vec<usize>>) -> (r: usize)
    requires
        middle_total(rules@, page_views(manual@), false, manual@.len()) is Ok,
    ensures
        Ok::<usize, UpdateError>(r) == middle_total(
            rules@,
            page_views(manual@),
            false,
            manual@.len(),
        ),
{
    match checked_solve(rules, manual, false) {
        Ok(sum) => sum,
        Err(_) => unreached(),
    }
}

/// The sum of the middle pages of the updates that are not in order, once
/// they are put in order.
pub fn solve_part_2(rules: &Vec<PageOrderingRule>, manual: &Vec<Vec<usize>>) -> (r: usize)
    requires
        middle_total(rules@, page_views(manual@), true, manual@.len()) is Ok,
    ensures
        Ok::<usize, UpdateError>(r) == middle_total(
            rules@,
            page_views(manual@),
            true,
            manual@.len(),
        ),
{
    match checked_solve(rules, manual, true) {
        Ok(sum) => sum,
        Err(_) => unreached(),
    }
}

} // verus!
