//! Round-robin rotation of API keys.

use vstd::prelude::*;
use vstd::string::StringExecFns;
use rand::Rng;
use crate::error::AppError;
use crate::split::{lemma_split_pieces_char_free, pieces_of, split_on, split_ranges};
use crate::text::{
    chars_of, lemma_trim_end_shape, lemma_trim_idempotent, lemma_trim_start_shape, string_of_range, trim,
    trim_range, trim_start,
};

verus! {

/// The keys named by comma-separated `pieces`: each piece trimmed, empty ones left out.
pub open spec fn key_list(pieces: Seq<Seq<char>>) -> Seq<Seq<char>>
    decreases pieces.len(),
{
    if pieces.len() == 0 {
        seq![]
    } else {
        let rest = key_list(pieces.drop_last());
        let t = trim(pieces.last());
        if t.len() > 0 {
            rest.push(t)
        } else {
            rest
        }
    }
}

/// The keys of a comma-separated key string: split on `,`, trimmed, empty ones left out.
pub open spec fn api_keys(s: Seq<char>) -> Seq<Seq<char>> {
    key_list(split_on(s, seq![',']))
}

/// What a rotator holds: its keys, and the position of the key it hands out next.
pub struct RotationState {
    pub keys: Seq<Seq<char>>,
    pub next: nat,
}

impl RotationState {
    /// The position is that of a key, or 0 when there is none.
    pub open spec fn wf(self) -> bool {
        if self.keys.len() == 0 {
            self.next == 0
        } else {
            self.next < self.keys.len()
        }
    }

    /// The key handed out next, if there is any.
    pub open spec fn current_key(self) -> Option<Seq<char>> {
        if self.keys.len() == 0 {
            None
        } else {
            Some(self.keys[self.next as int])
        }
    }

    /// The state after one key has been handed out.
    pub open spec fn step(self) -> RotationState {
        if self.keys.len() == 0 {
            self
        } else {
            RotationState { keys: self.keys, next: (self.next + 1) % self.keys.len() }
        }
    }

    /// The state after `k` keys have been handed out.
    pub open spec fn after(self, k: nat) -> RotationState
        decreases k,
    {
        if k == 0 {
            self
        } else {
            self.after((k - 1) as nat).step()
        }
    }
}

/// KeyRotator handles round-robin rotation of API keys
#[derive(Debug)]
pub struct KeyRotator {
    keys: Vec<String>,
    current_index: usize,
}

impl View for KeyRotator {
    type V = RotationState;

    closed spec fn view(&self) -> RotationState {
        RotationState {
            keys: self.keys@.map_values(|k: String| k@),
            next: self.current_index as nat,
        }
    }
}

/// A position drawn at random below `upper`, by `rand::thread_rng().gen_range(0..upper)`.
/// Nothing is stated of which position comes out; `gen_range` panics on an empty
/// range, which `requires` rules out.
#[verifier::external_body]
fn random_index(upper: usize) -> (r: usize)
    requires
        upper > 0,
    ensures
        r < upper,
{
    rand::thread_rng().gen_range(0..upper)
}

/// The keys of a comma-separated key string, trimmed, with empty ones left out.
#[verifier::rlimit(30)]
pub fn parse_api_keys(api_keys_str: &str) -> (r: Vec<String>)
    ensures
        r@.map_values(|k: String| k@) == api_keys(api_keys_str@),
{
    let v = chars_of(api_keys_str);
    let comma = vec![','];
    assert(comma@ =~= seq![',']);
    let ranges = split_ranges(&v, &comma);
    let ghost pieces = split_on(v@, seq![',']);
    let mut keys: Vec<String> = Vec::new();
    let mut k: usize = 0;
    while k < ranges.len()
        invariant
            k <= ranges.len(),
            pieces == split_on(v@, seq![',']),
            pieces.len() == ranges.len(),
            forall|i: int| 0 <= i < ranges.len() ==> (#[trigger] ranges@[i]).0 <= ranges@[i].1 <= v.len(),
            pieces_of(v@, ranges@) == pieces,
            keys@.map_values(|s: String| s@) == key_list(pieces.take(k as int)),
        decreases ranges.len() - k,
    {
        let (lo, hi) = ranges[k];
        assert(pieces[k as int] == v@.subrange(lo as int, hi as int));
        let (a, b) = trim_range(&v, lo, hi);
        assert(pieces.take(k + 1).drop_last() =~= pieces.take(k as int));
        assert(pieces.take(k + 1).last() == pieces[k as int]);
        if a < b {
            let key = string_of_range(&v, a, b);
            let ghost before = keys@;
            keys.push(key);
            assert(keys@.map_values(|s: String| s@) =~= before.map_values(|s: String| s@).push(
                key@,
            ));
        }
        k = k + 1;
    }
    assert(pieces.take(k as int) =~= pieces);
    keys
}

impl KeyRotator {
    /// The position is that of a key, or 0 when there is none.
    #[verifier::type_invariant]
    closed spec fn well_formed(&self) -> bool {
        if self.keys.len() == 0 {
            self.current_index == 0
        } else {
            self.current_index < self.keys.len()
        }
    }

    /// Create a new KeyRotator from a comma-separated string of API keys
    ///
    /// The keys are the comma-separated pieces, trimmed, with empty ones left
    /// out. With more than one key, rotation starts at a position drawn at
    /// random; otherwise at the first key.
    pub fn new(api_keys_str: &str) -> (r: Self)
        ensures
            r@.keys == api_keys(api_keys_str@),
            r@.wf(),
            r@.keys.len() <= 1 ==> r@.next == 0,
    {
        let key_count = parse_api_keys(api_keys_str).len();
        let start_index = if key_count > 1 {
            random_index(key_count)
        } else {
            0
        };
        let r = Self::with_start_index(api_keys_str, start_index);
        proof {
            use_type_invariant(&r);
        }
        r
    }

    /// A rotator over the keys of `api_keys_str` whose rotation starts at
    /// `start_index` (what `new` does after drawing its random start).
    pub fn with_start_index(api_keys_str: &str, start_index: usize) -> (r: Self)
        requires
            start_index == 0 || start_index < api_keys(api_keys_str@).len(),
        ensures
            r@.keys == api_keys(api_keys_str@),
            r@.next == start_index,
    {
        let keys = parse_api_keys(api_keys_str);
        assert(keys@.len() == keys@.map_values(|k: String| k@).len());
        KeyRotator { keys, current_index: start_index }
    }

    /// Get the next API key in round-robin fashion
    ///
    /// Hands out the key at the current position and moves to the next one,
    /// wrapping around after the last; `None` when there are no keys.
    pub fn get_next_key(&mut self) -> (r: Option<String>)
        ensures
            r matches Some(k) ==> old(self)@.current_key() == Some(k@),
            r is None ==> old(self)@.current_key() is None,
            final(self)@ == old(self)@.step(),
            final(self)@.wf(),
    {
        proof {
            use_type_invariant(&*self);
        }
        if self.keys.len() == 0 {
            return None;
        }
        let key = self.keys[self.current_index].clone();
        self.current_index = (self.current_index + 1) % self.keys.len();
        proof {
            use_type_invariant(&*self);
        }
        assert(self@.keys =~= old(self)@.keys);
        Some(key)
    }

    /// The keys, in rotation order.
    pub fn keys(&self) -> (r: &Vec<String>)
        ensures
            r@.map_values(|k: String| k@) == self@.keys,
    {
        &self.keys
    }

    /// Get the number of available API keys
    pub fn key_count(&self) -> (r: usize)
        ensures
            r == self@.keys.len(),
    {
        self.keys.len()
    }

    /// Succeeds when the rotator holds a key; otherwise the error that a run
    /// reports before any request.
    pub fn require_keys(&self) -> (r: Result<(), AppError>)
        ensures
            r is Ok <==> self@.keys.len() > 0,
            r matches Err(e) ==> (e matches AppError::ApiError(m) && m@ == "No valid API keys provided"@),
    {
        if self.keys.len() == 0 {
            Err(AppError::ApiError(String::from_str("No valid API keys provided")))
        } else {
            Ok(())
        }
    }

    /// The next key, or the error that the requests report when there is none.
    pub fn next_api_key(&mut self) -> (r: Result<String, AppError>)
        ensures
            r matches Ok(k) ==> old(self)@.current_key() == Some(k@),
            r matches Err(e) ==> old(self)@.current_key() is None && (e matches AppError::ApiError(m)
                && m@ == "No API keys available"@),
            final(self)@ == old(self)@.step(),
    {
        match self.get_next_key() {
            Some(k) => Ok(k),
            None => Err(AppError::ApiError(String::from_str("No API keys available"))),
        }
    }
}

// ------------------------------------------------------------------
// Laws of the rotation
// ------------------------------------------------------------------

/// After `k` keys have been handed out from a well-formed state with keys,
/// the position is `(next + k) mod n` and the keys are unchanged.
pub proof fn lemma_rotation_position(r: RotationState, k: nat)
    requires
        r.wf(),
        r.keys.len() > 0,
    ensures
        r.after(k).keys == r.keys,
        r.after(k).next == ((r.next + k) as int) % (r.keys.len() as int),
        r.after(k).wf(),
    decreases k,
{
    let n = r.keys.len() as int;
    if k > 0 {
        lemma_rotation_position(r, (k - 1) as nat);
        let p: int = r.after((k - 1) as nat).next as int;
        assert((p + 1) % n == ((r.next + k) as int) % n) by {
            vstd::arithmetic::div_mod::lemma_add_mod_noop_right(1, r.next + k - 1, n);
        }
    } else {
        vstd::arithmetic::div_mod::lemma_small_mod(r.next, r.keys.len());
    }
}

/// Law: handing out `key_count()` keys brings a rotator back to the state it
/// started from.
pub proof fn lemma_rotation_full_cycle(r: RotationState)
    requires
        r.wf(),
    ensures
        r.after(r.keys.len()) == r,
{
    if r.keys.len() > 0 {
        lemma_rotation_position(r, r.keys.len());
        let n = r.keys.len() as int;
        assert(((r.next + n) as int) % n == r.next) by {
            vstd::arithmetic::div_mod::lemma_mod_add_multiples_vanish(r.next as int, n);
            vstd::arithmetic::div_mod::lemma_small_mod(r.next, n as nat);
        }
    } else {
        lemma_rotation_stays(r, 0);
    }
}

/// A rotator without keys never moves.
proof fn lemma_rotation_stays(r: RotationState, k: nat)
    requires
        r.keys.len() == 0,
    ensures
        r.after(k) == r,
    decreases k,
{
    if k > 0 {
        lemma_rotation_stays(r, (k - 1) as nat);
    }
}

/// Law: within one cycle, every call hands out a different key position, so
/// each key is handed out once per `key_count()` calls.
pub proof fn lemma_rotation_distinct(r: RotationState, i: nat, j: nat)
    requires
        r.wf(),
        i < j < r.keys.len(),
    ensures
        r.after(i).next != r.after(j).next,
{
    lemma_rotation_position(r, i);
    lemma_rotation_position(r, j);
    let n = r.keys.len() as int;
    let a: int = (r.next + i) as int;
    let b: int = (r.next + j) as int;
    if a % n == b % n {
        vstd::arithmetic::div_mod::lemma_fundamental_div_mod(a, n);
        vstd::arithmetic::div_mod::lemma_fundamental_div_mod(b, n);
        assert(0 < b - a < n);
        assert(n * (b / n - a / n) == b - a) by (nonlinear_arith)
            requires
                a == n * (a / n) + a % n,
                b == n * (b / n) + b % n,
                a % n == b % n,
        ;
        assert(false) by (nonlinear_arith)
            requires
                n * (b / n - a / n) == b - a,
                0 < b - a < n,
        ;
    }
}

/// Every key kept from `pieces` is nonempty, trimmed, and made of characters of the pieces.
proof fn lemma_key_list_clean(pieces: Seq<Seq<char>>, c: char)
    requires
        forall|i: int, j: int|
            0 <= i < pieces.len() && 0 <= j < pieces[i].len() ==> pieces[i][j] != c,
    ensures
        forall|i: int|
            0 <= i < key_list(pieces).len() ==> {
                &&& (#[trigger] key_list(pieces)[i]).len() > 0
                &&& trim(key_list(pieces)[i]) == key_list(pieces)[i]
                &&& forall|j: int| 0 <= j < key_list(pieces)[i].len() ==> key_list(pieces)[i][j] != c
            },
    decreases pieces.len(),
{
    if pieces.len() > 0 {
        lemma_key_list_clean(pieces.drop_last(), c);
        let last = pieces.last();
        let t = trim(last);
        lemma_trim_idempotent(last);
        lemma_trim_start_shape(last);
        lemma_trim_end_shape(trim_start(last));
        let ts = trim_start(last);
        assert(last == pieces[pieces.len() - 1]);
        assert forall|j: int| 0 <= j < t.len() implies t[j] != c by {
            assert(t[j] == ts[j]);
            assert(ts[j] == last[last.len() - ts.len() + j]);
            assert(pieces[pieces.len() - 1][last.len() - ts.len() + j] != c);
        }
        let rest = key_list(pieces.drop_last());
        let kl = key_list(pieces);
        assert forall|i: int| 0 <= i < kl.len() implies {
            &&& (#[trigger] kl[i]).len() > 0
            &&& trim(kl[i]) == kl[i]
            &&& forall|j: int| 0 <= j < kl[i].len() ==> kl[i][j] != c
        } by {
            if i < rest.len() {
                assert(kl[i] == rest[i]);
            } else {
                assert(kl[i] == t);
            }
        }
    }
}

/// Law: every key of a rotator is nonempty, has no leading or trailing
/// whitespace, and holds no comma.
pub proof fn lemma_api_keys_clean(s: Seq<char>)
    ensures
        forall|i: int|
            0 <= i < api_keys(s).len() ==> {
                &&& (#[trigger] api_keys(s)[i]).len() > 0
                &&& trim(api_keys(s)[i]) == api_keys(s)[i]
                &&& !api_keys(s)[i].contains(',')
            },
{
    lemma_split_pieces_char_free(s, ',');
    lemma_key_list_clean(split_on(s, seq![',']), ',');
}

/// The keys handed out by `n` consecutive calls from state `r`.
pub open spec fn served_keys(r: RotationState, n: nat) -> Seq<Seq<char>> {
    Seq::new(n, |k: int| r.keys[r.after(k as nat).next as int])
}

/// Handing out `j` keys and then `k` more is handing out `j + k`.
proof fn lemma_after_after(r: RotationState, j: nat, k: nat)
    ensures
        r.after(j).after(k) == r.after(j + k),
    decreases k,
{
    if k > 0 {
        lemma_after_after(r, j, (k - 1) as nat);
        assert((j + k - 1) as nat == (j + (k - 1)) as nat);
    }
}

/// The keys of one full cycle from a well-formed state are its keys rotated.
proof fn lemma_served_rotation(q: RotationState)
    requires
        q.wf(),
        q.keys.len() > 0,
    ensures
        served_keys(q, q.keys.len()) == q.keys.subrange(q.next as int, q.keys.len() as int)
            + q.keys.subrange(0, q.next as int),
{
    let n = q.keys.len() as int;
    let p = q.next as int;
    let lhs = served_keys(q, q.keys.len());
    let rhs = q.keys.subrange(p, n) + q.keys.subrange(0, p);
    assert forall|k: int| 0 <= k < n implies lhs[k] == rhs[k] by {
        lemma_rotation_position(q, k as nat);
        if k < n - p {
            vstd::arithmetic::div_mod::lemma_small_mod((p + k) as nat, n as nat);
        } else {
            vstd::arithmetic::div_mod::lemma_mod_sub_multiples_vanish(p + k, n);
            vstd::arithmetic::div_mod::lemma_small_mod((p + k - n) as nat, n as nat);
        }
    }
    assert(lhs =~= rhs);
}

/// Law: in any `key_count()` consecutive calls on a rotator with keys, every
/// call hands out a key, every key is handed out exactly once (the keys handed
/// out are, as a multiset, the rotator's keys), and the calls repeat with
/// period `key_count()`.
pub proof fn lemma_rotation_serves_each_key_once(r: RotationState, j: nat)
    requires
        r.wf(),
        r.keys.len() > 0,
    ensures
        forall|k: nat| (#[trigger] r.after(k)).current_key() is Some,
        r.after(j + r.keys.len()) == r.after(j),
        served_keys(r.after(j), r.keys.len()).to_multiset() == r.keys.to_multiset(),
{
    assert forall|k: nat| (#[trigger] r.after(k)).current_key() is Some by {
        lemma_rotation_position(r, k);
    }
    let q = r.after(j);
    lemma_rotation_position(r, j);
    lemma_after_after(r, j, r.keys.len());
    lemma_rotation_full_cycle(q);
    lemma_served_rotation(q);
    let n = q.keys.len() as int;
    let p = q.next as int;
    let a = q.keys.subrange(0, p);
    let b = q.keys.subrange(p, n);
    assert(q.keys =~= a + b);
    vstd::seq_lib::lemma_multiset_commutative(a, b);
    vstd::seq_lib::lemma_multiset_commutative(b, a);
    assert(a.to_multiset().add(b.to_multiset()) =~= b.to_multiset().add(a.to_multiset()));
}

} // verus!
