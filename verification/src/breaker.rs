//! The two players: a responder that answers feedback queries for a
//! fixed secret, and a code breaker that prunes its candidate pool
//! after each answer and picks guesses by a minimax rule.

use crate::code::Code;
use crate::code::all_possible_codes;
use crate::code::is_code_universe;
use crate::code::lemma_universe_no_duplicates;
use crate::code::lemma_universe_unique;
use crate::code::num_of;
use crate::code::valid_code;
use crate::feedback::BC;
use crate::feedback::bc;
use crate::feedback::lemma_four_bulls_eq;
use crate::feedback::lemma_score_bounds;
use crate::feedback::lemma_score_exact;
use crate::feedback::lemma_score_self;
use crate::feedback::lemma_score_symmetric;
use crate::feedback::score;
use vstd::arithmetic::div_mod::lemma_fundamental_div_mod;
use vstd::arithmetic::div_mod::lemma_fundamental_div_mod_converse;
use vstd::arithmetic::div_mod::lemma_mod_bound;
use vstd::prelude::*;

verus! {

/// Holds the secret code for one game and answers feedback queries
/// about it, without ever changing it.
#[derive(Clone, Copy)]
pub struct Responder {
    pub secret_code: Code,
}

impl Responder {
    /// The feedback the given guess earns against the secret.
    pub fn response(&self, guess: &Code) -> (r: BC)
        ensures
            r == score(self.secret_code, *guess),
    {
        bc(&self.secret_code, guess)
    }
}

/// The candidates of `pool`, in order, whose answer to `guess` would
/// be exactly `f`.
pub open spec fn prune(pool: Seq<Code>, guess: Code, f: BC) -> Seq<Code>
    decreases pool.len(),
{
    if pool.len() == 0 {
        Seq::empty()
    } else {
        let rest = prune(pool.drop_last(), guess, f);
        if score(pool.last(), guess) == f {
            rest.push(pool.last())
        } else {
            rest
        }
    }
}

/// Pruning never adds a candidate.
proof fn lemma_prune_len_le(pool: Seq<Code>, guess: Code, f: BC)
    ensures
        prune(pool, guess, f).len() <= pool.len(),
    decreases pool.len(),
{
    if pool.len() > 0 {
        lemma_prune_len_le(pool.drop_last(), guess, f);
    }
}

/// Every pruned candidate comes from the pool.
proof fn lemma_prune_subset(pool: Seq<Code>, guess: Code, f: BC)
    ensures
        forall|x: Code| prune(pool, guess, f).contains(x) ==> pool.contains(x),
    decreases pool.len(),
{
    if pool.len() > 0 {
        let dl = pool.drop_last();
        lemma_prune_subset(dl, guess, f);
        let p = prune(pool, guess, f);
        let rest = prune(dl, guess, f);
        assert forall|x: Code| p.contains(x) implies pool.contains(x) by {
            let i: int = choose|i: int| 0 <= i < p.len() && p[i] == x;
            if score(pool.last(), guess) == f && i == p.len() - 1 {
                assert(pool[pool.len() - 1] == x);
            } else {
                assert(rest[i] == x);
                assert(rest.contains(x));
                assert(dl.contains(x));
                let k: int = choose|k: int| 0 <= k < dl.len() && dl[k] == x;
                assert(pool[k] == x);
            }
        }
    }
}

/// Every pruned candidate answers `guess` with `f`.
proof fn lemma_prune_sound(pool: Seq<Code>, guess: Code, f: BC)
    ensures
        forall|k: int|
            0 <= k < prune(pool, guess, f).len() ==> score(
                #[trigger] prune(pool, guess, f)[k],
                guess,
            ) == f,
    decreases pool.len(),
{
    if pool.len() > 0 {
        let dl = pool.drop_last();
        lemma_prune_sound(dl, guess, f);
        let p = prune(pool, guess, f);
        let rest = prune(dl, guess, f);
        assert forall|k: int| 0 <= k < p.len() implies score(#[trigger] p[k], guess) == f by {
            if score(pool.last(), guess) == f && k == p.len() - 1 {
                assert(p[k] == pool.last());
            } else {
                assert(p[k] == rest[k]);
            }
        }
    }
}

/// A pool candidate that answers `guess` with `f` survives pruning.
proof fn lemma_prune_keeps(pool: Seq<Code>, guess: Code, f: BC, c: Code)
    requires
        pool.contains(c),
        score(c, guess) == f,
    ensures
        prune(pool, guess, f).contains(c),
    decreases pool.len(),
{
    let dl = pool.drop_last();
    if c == pool.last() {
        let p = prune(pool, guess, f);
        assert(p[p.len() - 1] == c);
    } else {
        let k: int = choose|k: int| 0 <= k < pool.len() && pool[k] == c;
        assert(dl[k] == c);
        lemma_prune_keeps(dl, guess, f, c);
        let p2 = prune(dl, guess, f);
        let j: int = choose|j: int| 0 <= j < p2.len() && p2[j] == c;
        assert(prune(pool, guess, f)[j] == c);
    }
}

/// Pruning a pool that holds no candidate twice yields a pool that
/// holds no candidate twice.
proof fn lemma_prune_no_duplicates(pool: Seq<Code>, guess: Code, f: BC)
    requires
        pool.no_duplicates(),
    ensures
        prune(pool, guess, f).no_duplicates(),
    decreases pool.len(),
{
    if pool.len() > 0 {
        let dl = pool.drop_last();
        lemma_prune_no_duplicates(dl, guess, f);
        lemma_prune_subset(dl, guess, f);
        let p = prune(pool, guess, f);
        let rest = prune(dl, guess, f);
        if score(pool.last(), guess) == f {
            if rest.contains(pool.last()) {
                assert(dl.contains(pool.last()));
                let k: int = choose|k: int| 0 <= k < dl.len() && dl[k] == pool.last();
                assert(pool[k] == pool[pool.len() - 1]);
                assert(false);
            }
            assert forall|i: int, j: int|
                0 <= i < p.len() && 0 <= j < p.len() && i != j implies p[i] != p[j] by {
                if i < p.len() - 1 && j < p.len() - 1 {
                    assert(p[i] == rest[i]);
                    assert(p[j] == rest[j]);
                } else if j == p.len() - 1 {
                    assert(p[j] == pool.last());
                    assert(p[i] == rest[i]);
                    if p[i] == pool.last() {
                        assert(rest.contains(pool.last()));
                    }
                } else {
                    assert(p[i] == pool.last());
                    assert(p[j] == rest[j]);
                    if p[j] == pool.last() {
                        assert(rest.contains(pool.last()));
                    }
                }
            }
        }
    }
}

/// A pool candidate that answers `guess` otherwise than `f` makes
/// pruning strictly shrink the pool.
proof fn lemma_prune_absent_shrinks(pool: Seq<Code>, guess: Code, f: BC, i: int)
    requires
        0 <= i < pool.len(),
        score(pool[i], guess) != f,
    ensures
        prune(pool, guess, f).len() < pool.len(),
    decreases pool.len(),
{
    let dl = pool.drop_last();
    lemma_prune_len_le(dl, guess, f);
    if i < pool.len() - 1 {
        assert(dl[i] == pool[i]);
        lemma_prune_absent_shrinks(dl, guess, f, i);
    }
}

/// Pruning after appending one candidate appends it too when its
/// answer is `f`, and drops it otherwise.
proof fn lemma_prune_push(pool: Seq<Code>, x: Code, guess: Code, f: BC)
    ensures
        prune(pool.push(x), guess, f) == if score(x, guess) == f {
            prune(pool, guess, f).push(x)
        } else {
            prune(pool, guess, f)
        },
{
    assert(pool.push(x).drop_last() =~= pool);
    assert(pool.push(x).last() == x);
}

/// The feedback value in bucket `k` of the table of possible bull and
/// cow counts, five cow values to a row of bulls.
pub open spec fn bucket(k: int) -> BC {
    BC { bulls: (k / 5) as u8, cows: (k % 5) as u8 }
}

/// How many candidates of `pool` would answer `g` with feedback `f`.
pub open spec fn count_feedback(pool: Seq<Code>, g: Code, f: BC) -> int {
    prune(pool, g, f).len() as int
}

/// The largest bucket count among the first `k` feedback buckets.
pub open spec fn worst_upto(pool: Seq<Code>, g: Code, k: int) -> int
    decreases k,
{
    if k <= 0 {
        0
    } else {
        let rest = worst_upto(pool, g, k - 1);
        let cnt = count_feedback(pool, g, bucket(k - 1));
        if cnt > rest {
            cnt
        } else {
            rest
        }
    }
}

/// The worst case guess `g` can leave: the size of the largest group
/// of candidates in `pool` that share one feedback answer to `g`.
pub open spec fn worst_case(pool: Seq<Code>, g: Code) -> int {
    worst_upto(pool, g, 25)
}

/// Bucket numbers decode injectively to feedback values.
proof fn lemma_bucket_injective(j: int, k: int)
    requires
        0 <= j < 25,
        0 <= k < 25,
        bucket(j) == bucket(k),
    ensures
        j == k,
{
    lemma_fundamental_div_mod(j, 5);
    lemma_fundamental_div_mod(k, 5);
    lemma_mod_bound(j, 5);
    lemma_mod_bound(k, 5);
}

/// A feedback with counts at most four is the value of its own bucket.
proof fn lemma_bucket_of_feedback(f: BC)
    requires
        f.bulls <= 4,
        f.cows <= 4,
    ensures
        0 <= 5 * (f.bulls as int) + (f.cows as int) < 25,
        bucket(5 * (f.bulls as int) + (f.cows as int)) == f,
{
    lemma_fundamental_div_mod_converse(
        5 * (f.bulls as int) + (f.cows as int),
        5,
        f.bulls as int,
        f.cows as int,
    );
}

/// Every bucket's count is at most the worst over the first `m`.
proof fn lemma_count_le_worst_upto(pool: Seq<Code>, g: Code, k: int, m: int)
    requires
        0 <= k < m,
    ensures
        count_feedback(pool, g, bucket(k)) <= worst_upto(pool, g, m),
    decreases m,
{
    if k < m - 1 {
        lemma_count_le_worst_upto(pool, g, k, m - 1);
    }
}

/// The candidates sharing any one feedback answer to `g` number at
/// most the worst case of `g`.
pub proof fn lemma_count_le_worst(pool: Seq<Code>, g: Code, f: BC)
    requires
        f.bulls <= 4,
        f.cows <= 4,
    ensures
        count_feedback(pool, g, f) <= worst_case(pool, g),
{
    lemma_bucket_of_feedback(f);
    lemma_count_le_worst_upto(pool, g, 5 * (f.bulls as int) + (f.cows as int), 25);
}

/// If every bucket count is at most `b`, so is the worst case so far.
proof fn lemma_worst_upto_bound(pool: Seq<Code>, g: Code, m: int, b: int)
    requires
        b >= 0,
        forall|k: int| 0 <= k < m ==> count_feedback(pool, g, #[trigger] bucket(k)) <= b,
    ensures
        worst_upto(pool, g, m) <= b,
    decreases m,
{
    if m > 0 {
        lemma_worst_upto_bound(pool, g, m - 1, b);
    }
}

/// A guess taken from the pool itself always leaves at most all the
/// other candidates: the group answering four bulls is the guess
/// alone, and every other group misses the guess.
pub proof fn lemma_worst_case_in_pool(pool: Seq<Code>, g: Code)
    requires
        pool.no_duplicates(),
        forall|k: int| 0 <= k < pool.len() ==> valid_code(#[trigger] pool[k]),
        pool.contains(g),
        pool.len() >= 2,
    ensures
        worst_case(pool, g) <= pool.len() - 1,
{
    let gi: int = choose|i: int| 0 <= i < pool.len() && pool[i] == g;
    assert forall|k: int| 0 <= k < 25 implies count_feedback(pool, g, #[trigger] bucket(k))
        <= pool.len() - 1 by {
        let f = bucket(k);
        let p = prune(pool, g, f);
        if f == (BC { bulls: 4, cows: 0 }) {
            lemma_prune_sound(pool, g, f);
            lemma_prune_no_duplicates(pool, g, f);
            lemma_prune_len_le(pool, g, f);
            if p.len() >= 2 {
                lemma_score_exact(p[0], g);
                lemma_four_bulls_eq(p[0], g);
                lemma_score_exact(p[1], g);
                lemma_four_bulls_eq(p[1], g);
                assert(p[0] == g && p[1] == g);
                assert(false);
            }
        } else {
            lemma_score_self(g);
            lemma_prune_absent_shrinks(pool, g, f, gi);
        }
    }
    lemma_worst_upto_bound(pool, g, 25, pool.len() - 1);
}

/// `r` is the guess the minimax rule picks from `guesses` against
/// `pool`: its worst case is no larger than any other guess's, and
/// every guess standing earlier in the pool order does strictly
/// worse.
pub open spec fn is_first_minimax_choice(pool: Seq<Code>, guesses: Seq<Code>, r: Code) -> bool {
    exists|i: int|
        #![trigger guesses[i]]
        0 <= i < guesses.len() && r == guesses[i] && (forall|j: int|
            0 <= j < guesses.len() ==> worst_case(pool, #[trigger] guesses[j]) >= worst_case(
                pool,
                r,
            )) && (forall|j: int|
            0 <= j < i ==> worst_case(pool, #[trigger] guesses[j]) > worst_case(pool, r))
}

/// The minimax choice does at least as well as any guess in the pool
/// it was chosen from.
pub proof fn lemma_minimax_choice_le(pool: Seq<Code>, guesses: Seq<Code>, r: Code, g: Code)
    requires
        is_first_minimax_choice(pool, guesses, r),
        guesses.contains(g),
    ensures
        worst_case(pool, r) <= worst_case(pool, g),
{
    let i: int = choose|i: int|
        #![trigger guesses[i]]
        0 <= i < guesses.len() && r == guesses[i] && (forall|j: int|
            0 <= j < guesses.len() ==> worst_case(pool, #[trigger] guesses[j]) >= worst_case(
                pool,
                r,
            )) && (forall|j: int|
            0 <= j < i ==> worst_case(pool, #[trigger] guesses[j]) > worst_case(pool, r));
    let j: int = choose|j: int| 0 <= j < guesses.len() && guesses[j] == g;
    assert(worst_case(pool, guesses[j]) >= worst_case(pool, r));
}

/// The worst case for one guess: bucket the pool's answers to it and
/// return the size of the largest bucket.
fn worst_partition(pool: &Vec<Code>, guess: &Code) -> (w: usize)
    requires
        forall|k: int| 0 <= k < pool@.len() ==> valid_code(#[trigger] pool@[k]),
        valid_code(*guess),
    ensures
        w == worst_case(pool@, *guess),
{
    let mut counts: [usize; 25] = [0; 25];
    let n = pool.len();
    let mut i: usize = 0;
    while i < n
        invariant
            i <= n,
            n == pool@.len(),
            forall|k: int| 0 <= k < pool@.len() ==> valid_code(#[trigger] pool@[k]),
            valid_code(*guess),
            forall|k: int|
                0 <= k < 25 ==> counts[k] as int == count_feedback(
                    pool@.take(i as int),
                    *guess,
                    #[trigger] bucket(k),
                ),
        decreases n - i,
    {
        let c = pool[i];
        let resp = bc(guess, &c);
        proof {
            lemma_score_bounds(*guess, c);
            lemma_score_exact(*guess, c);
        }
        let idx: usize = (resp.bulls as usize) * 5 + (resp.cows as usize);
        proof {
            lemma_bucket_of_feedback(resp);
            lemma_score_symmetric(*guess, c);
            pool@.lemma_take_succ_push(i as int);
            lemma_prune_push(pool@.take(i as int), c, *guess, resp);
            assert forall|k: int| 0 <= k < 25 && k != idx implies count_feedback(
                pool@.take(i as int + 1),
                *guess,
                #[trigger] bucket(k),
            ) == count_feedback(pool@.take(i as int), *guess, bucket(k)) by {
                if bucket(k) == resp {
                    lemma_bucket_injective(k, idx as int);
                }
                lemma_prune_push(pool@.take(i as int), c, *guess, bucket(k));
            }
            lemma_prune_len_le(pool@.take(i as int), *guess, resp);
        }
        let cur = counts[idx];
        counts[idx] = cur + 1;
        i = i + 1;
    }
    proof {
        assert(pool@.take(n as int) =~= pool@);
    }
    let mut w: usize = 0;
    let mut k: usize = 0;
    while k < 25
        invariant
            k <= 25,
            forall|j: int|
                0 <= j < 25 ==> counts[j] as int == count_feedback(
                    pool@,
                    *guess,
                    #[trigger] bucket(j),
                ),
            w as int == worst_upto(pool@, *guess, k as int),
        decreases 25 - k,
    {
        let c = counts[k];
        if c > w {
            w = c;
        }
        k = k + 1;
    }
    w
}

/// The breaker: a pool of candidates still consistent with every
/// answer received, and the fixed pool of guesses it may try.
pub struct CodeBreaker {
    pub responder: Responder,
    pub possible_correct_codes: Vec<Code>,
    pub possible_guesses: Vec<Code>,
}

impl CodeBreaker {
    /// Well-formed breaker state: the guess pool is the full universe
    /// of valid codes, and the candidate pool holds only valid codes,
    /// none of them twice, each of them also a possible guess.
    pub open spec fn wf(self) -> bool {
        &&& is_code_universe(self.possible_guesses@)
        &&& forall|k: int|
            0 <= k < self.possible_correct_codes@.len() ==> valid_code(
                #[trigger] self.possible_correct_codes@[k],
            )
        &&& self.possible_correct_codes@.no_duplicates()
        &&& forall|k: int|
            0 <= k < self.possible_correct_codes@.len() ==> self.possible_guesses@.contains(
                #[trigger] self.possible_correct_codes@[k],
            )
    }

    /// Start a game against `responder`: both pools begin as the full
    /// universe of valid codes.
    pub fn new(responder: &Responder) -> (r: CodeBreaker)
        ensures
            r.wf(),
            r.responder == *responder,
            is_code_universe(r.possible_correct_codes@),
            r.possible_correct_codes@ == r.possible_guesses@,
    {
        let r = CodeBreaker {
            responder: *responder,
            possible_correct_codes: all_possible_codes(),
            possible_guesses: all_possible_codes(),
        };
        proof {
            lemma_universe_no_duplicates(r.possible_correct_codes@);
            lemma_universe_unique(r.possible_correct_codes@, r.possible_guesses@);
        }
        r
    }

    /// Submit a guess: fetch the responder's feedback, then keep only
    /// the candidates that would have answered the guess the same
    /// way.  The pool never grows, and a secret consistent with it
    /// stays in it.
    pub fn make_turn(&mut self, code: &Code) -> (r: BC)
        ensures
            r == score(old(self).responder.secret_code, *code),
            final(self).responder == old(self).responder,
            final(self).possible_guesses@ == old(self).possible_guesses@,
            final(self).possible_correct_codes@ == prune(
                old(self).possible_correct_codes@,
                *code,
                r,
            ),
            final(self).possible_correct_codes@.len() <= old(self).possible_correct_codes@.len(),
            old(self).possible_correct_codes@.contains(old(self).responder.secret_code)
                ==> final(self).possible_correct_codes@.contains(old(self).responder.secret_code),
            old(self).wf() ==> final(self).wf(),
    {
        let bc0 = self.responder.response(code);
        let mut kept: Vec<Code> = Vec::new();
        let n = self.possible_correct_codes.len();
        let mut i: usize = 0;
        while i < n
            invariant
                i <= n,
                n == self.possible_correct_codes@.len(),
                self.responder == old(self).responder,
                self.possible_correct_codes@ == old(self).possible_correct_codes@,
                self.possible_guesses@ == old(self).possible_guesses@,
                bc0 == score(self.responder.secret_code, *code),
                kept@ == prune(self.possible_correct_codes@.take(i as int), *code, bc0),
            decreases n - i,
        {
            let c = self.possible_correct_codes[i];
            let r2 = bc(&c, code);
            proof {
                self.possible_correct_codes@.lemma_take_succ_push(i as int);
                lemma_prune_push(self.possible_correct_codes@.take(i as int), c, *code, bc0);
            }
            if r2 == bc0 {
                kept.push(c);
            }
            i = i + 1;
        }
        proof {
            assert(self.possible_correct_codes@.take(n as int) =~= self.possible_correct_codes@);
        }
        self.possible_correct_codes = kept;
        proof {
            let oldpool = old(self).possible_correct_codes@;
            lemma_prune_len_le(oldpool, *code, bc0);
            if oldpool.contains(old(self).responder.secret_code) {
                lemma_prune_keeps(oldpool, *code, bc0, old(self).responder.secret_code);
            }
            if old(self).wf() {
                lemma_prune_subset(oldpool, *code, bc0);
                lemma_prune_no_duplicates(oldpool, *code, bc0);
                assert forall|k: int|
                    0 <= k < self.possible_correct_codes@.len() implies valid_code(
                    #[trigger] self.possible_correct_codes@[k],
                ) && self.possible_guesses@.contains(self.possible_correct_codes@[k]) by {
                    let x = self.possible_correct_codes@[k];
                    assert(self.possible_correct_codes@.contains(x));
                    assert(oldpool.contains(x));
                    let j: int = choose|j: int| 0 <= j < oldpool.len() && oldpool[j] == x;
                    assert(valid_code(oldpool[j]));
                }
            }
        }
        bc0
    }

    /// Pick the next guess.  When nothing has been pruned yet, or a
    /// single candidate is left, that is the first candidate; else
    /// the first guess, in guess-pool order, whose worst case over
    /// the candidate pool is smallest.
    pub fn find_best_guess(&self) -> (r: Code)
        requires
            self.wf(),
            self.possible_correct_codes@.len() >= 1,
            self.possible_guesses@.len() >= 1,
        ensures
            (self.possible_guesses@.len() == self.possible_correct_codes@.len()
                || self.possible_correct_codes@.len() == 1) ==> r
                == self.possible_correct_codes@[0],
            !(self.possible_guesses@.len() == self.possible_correct_codes@.len()
                || self.possible_correct_codes@.len() == 1) ==> is_first_minimax_choice(
                self.possible_correct_codes@,
                self.possible_guesses@,
                r,
            ),
    {
        if self.possible_guesses.len() == self.possible_correct_codes.len() {
            return self.possible_correct_codes[0];
        }
        if self.possible_correct_codes.len() == 1 {
            return self.possible_correct_codes[0];
        }
        let ghost guesses = self.possible_guesses@;
        let ghost pool = self.possible_correct_codes@;
        let mut best: Code = self.possible_guesses[0];
        let mut best_w: usize = worst_partition(&self.possible_correct_codes, &best);
        let ghost mut best_i: int = 0;
        let mut gi: usize = 1;
        while gi < self.possible_guesses.len()
            invariant
                self.wf(),
                guesses == self.possible_guesses@,
                pool == self.possible_correct_codes@,
                1 <= gi <= guesses.len(),
                0 <= best_i < gi,
                best == guesses[best_i],
                best_w as int == worst_case(pool, best),
                forall|j: int|
                    0 <= j < gi ==> worst_case(pool, #[trigger] guesses[j]) >= best_w as int,
                forall|j: int|
                    0 <= j < best_i ==> worst_case(pool, #[trigger] guesses[j]) > best_w as int,
            decreases guesses.len() - gi,
        {
            let g = self.possible_guesses[gi];
            let w = worst_partition(&self.possible_correct_codes, &g);
            if w < best_w {
                best = g;
                best_w = w;
                proof {
                    best_i = gi as int;
                }
            }
            gi = gi + 1;
        }
        proof {
            assert(0 <= best_i < guesses.len() && best == guesses[best_i] && (forall|j: int|
                0 <= j < guesses.len() ==> worst_case(pool, #[trigger] guesses[j]) >= worst_case(
                    pool,
                    best,
                )) && (forall|j: int|
                0 <= j < best_i ==> worst_case(pool, #[trigger] guesses[j]) > worst_case(
                    pool,
                    best,
                )));
        }
        best
    }
}

/// Play one whole game automatically: a responder holds the fixed
/// secret 1278, and the breaker submits its minimax guess until the
/// answer is four bulls.  The pool shrinks on every turn, so the game
/// always ends, and four bulls single out the secret, which is
/// returned.
pub fn play_auto() -> (r: Code)
    ensures
        valid_code(r),
        num_of(r) == 1278,
{
    let resp = Responder { secret_code: Code::from_number(1278) };
    let ghost secret = resp.secret_code;
    proof {
        assert(valid_code(secret));
        assert(num_of(secret) == 1278);
    }
    let mut breaker = CodeBreaker::new(&resp);
    loop
        invariant
            breaker.wf(),
            breaker.responder.secret_code == secret,
            valid_code(secret),
            num_of(secret) == 1278,
            breaker.possible_correct_codes@.contains(secret),
        decreases breaker.possible_correct_codes@.len(),
    {
        let ghost pool = breaker.possible_correct_codes@;
        let ghost guesses = breaker.possible_guesses@;
        proof {
            assert(guesses.contains(secret));
        }
        let best_guess = breaker.find_best_guess();
        let res = breaker.make_turn(&best_guess);
        proof {
            lemma_score_exact(secret, best_guess);
        }
        if res.bulls == 4 {
            proof {
                lemma_four_bulls_eq(secret, best_guess);
            }
            return best_guess;
        }
        proof {
            if guesses.len() == pool.len() || pool.len() == 1 {
                lemma_score_self(pool[0]);
                lemma_prune_absent_shrinks(pool, best_guess, res, 0);
            } else {
                lemma_minimax_choice_le(pool, guesses, best_guess, pool[0]);
                lemma_worst_case_in_pool(pool, pool[0]);
                lemma_score_bounds(secret, best_guess);
                lemma_count_le_worst(pool, best_guess, res);
            }
        }
    }
}

} // verus!
