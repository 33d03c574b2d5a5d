use vstd::prelude::*;
use crate::merkle::resolve::resolved_links;
use crate::merkle::radix_node::{trie_wf, RadixNode};
use crate::error::CashewError;
use crate::merkle::decode::lazy_links;
use crate::merkle::dictionary::{
    count_string, count_text,
    dict_bytes,DictModel, MerkleDictionary};
use crate::merkle::radix_node::opt_view;
use crate::text::{chars_to_string, key_lt};

verus! {

/// The last `width` binary digits of `n`, most significant first.
pub open spec fn binary_digits(n: nat, width: nat) -> Seq<char>
    decreases width,
{
    if width == 0 {
        Seq::empty()
    } else {
        binary_digits(n / 2, (width - 1) as nat).push(if n % 2 == 0 { '0' } else { '1' })
    }
}

/// Two to the power `w`.
pub open spec fn two_pow(w: nat) -> nat
    decreases w,
{
    if w == 0 {
        1
    } else {
        2 * two_pow((w - 1) as nat)
    }
}

/// The key under which an array stores the element at `index`: the index in
/// binary, zero-padded to 256 digits.
pub open spec fn array_key(index: nat) -> Seq<char> {
    binary_digits(index, 256)
}

proof fn lemma_binary_digits_len(n: nat, w: nat)
    ensures
        binary_digits(n, w).len() == w,
    decreases w,
{
    if w > 0 {
        lemma_binary_digits_len(n / 2, (w - 1) as nat);
    }
}

proof fn lemma_key_lt_push(x: Seq<char>, y: Seq<char>, c: char, d: char)
    requires
        x.len() == y.len(),
    ensures
        key_lt(x.push(c), y.push(d)) == (key_lt(x, y) || (x == y && (c as int) < (d as int))),
    decreases x.len(),
{
    if x.len() == 0 {
        assert(x =~= y);
        assert(!key_lt(x, y));
        assert(x.push(c)[0] == c && y.push(d)[0] == d);
        assert(x.push(c).drop_first() =~= Seq::<char>::empty());
        assert(y.push(d).drop_first() =~= Seq::<char>::empty());
        assert(!key_lt(Seq::<char>::empty(), Seq::<char>::empty()));
    } else {
        assert(x.push(c)[0] == x[0]);
        assert(y.push(d)[0] == y[0]);
        if x[0] == y[0] {
            assert(x.push(c).drop_first() =~= x.drop_first().push(c));
            assert(y.push(d).drop_first() =~= y.drop_first().push(d));
            lemma_key_lt_push(x.drop_first(), y.drop_first(), c, d);
            if x.drop_first() == y.drop_first() {
                assert forall|i: int| 0 <= i < x.len() implies x[i] == y[i] by {
                    if i > 0 {
                        assert(x[i] == x.drop_first()[i - 1]);
                        assert(y[i] == y.drop_first()[i - 1]);
                    }
                }
                assert(x =~= y);
            }
        }
    }
}

proof fn lemma_binary_digits_order(a: nat, b: nat, w: nat)
    requires
        a < b < two_pow(w),
    ensures
        key_lt(binary_digits(a, w), binary_digits(b, w)),
    decreases w,
{
    let v = (w - 1) as nat;
    lemma_binary_digits_len(a / 2, v);
    lemma_binary_digits_len(b / 2, v);
    let da = if a % 2 == 0 { '0' } else { '1' };
    let db = if b % 2 == 0 { '0' } else { '1' };
    lemma_key_lt_push(binary_digits(a / 2, v), binary_digits(b / 2, v), da, db);
    if a / 2 < b / 2 {
        lemma_binary_digits_order(a / 2, b / 2, v);
    }
}

proof fn lemma_two_pow_mono(v: nat, w: nat)
    requires
        v <= w,
    ensures
        two_pow(v) <= two_pow(w),
    decreases w,
{
    if v < w {
        lemma_two_pow_mono(v, (w - 1) as nat);
    }
}

/// Every array key is 256 characters long.
pub proof fn lemma_binary_key_len(index: nat)
    ensures
        array_key(index).len() == 256,
{
    lemma_binary_digits_len(index, 256);
}

/// Array keys follow the order of their indices: a smaller index gives a key
/// that comes first in `String` order, so distinct indices never share a key.
pub proof fn lemma_binary_key_order(i: usize, j: usize)
    requires
        i < j,
    ensures
        key_lt(array_key(i as nat), array_key(j as nat)),
        array_key(i as nat) != array_key(j as nat),
{
    assert(two_pow(64) == 0x1_0000_0000_0000_0000) by {
        reveal_with_fuel(two_pow, 65);
    }
    lemma_two_pow_mono(64, 256);
    lemma_binary_digits_order(i as nat, j as nat, 256);
    crate::text::lemma_key_lt_asymmetric(array_key(i as nat), array_key(j as nat));
}

/// The number whose binary digits, most significant first, are `s`.
pub open spec fn binary_value(s: Seq<char>) -> nat
    decreases s.len(),
{
    if s.len() == 0 {
        0
    } else {
        binary_value(s.drop_last()) * 2 + if s.last() == '1' { 1nat } else { 0nat }
    }
}

proof fn lemma_binary_digits_value(n: nat, w: nat)
    requires
        n < two_pow(w),
    ensures
        binary_value(binary_digits(n, w)) == n,
        forall|i: int| 0 <= i < w ==> #[trigger] binary_digits(n, w)[i] == '0' || binary_digits(n, w)[i] == '1',
    decreases w,
{
    if w > 0 {
        let v = (w - 1) as nat;
        lemma_binary_digits_value(n / 2, v);
        lemma_binary_digits_len(n / 2, v);
        let s = binary_digits(n, w);
        assert(s.drop_last() =~= binary_digits(n / 2, v));
        assert forall|i: int| 0 <= i < w implies #[trigger] s[i] == '0' || s[i] == '1' by {
            if i < v {
                assert(s[i] == binary_digits(n / 2, v)[i]);
            }
        }
    } else {
        assert(n == 0);
    }
}

/// An array key is made of the digits `0` and `1` and reads, in base 2, as its index.
pub proof fn lemma_binary_key_digits(index: usize)
    ensures
        forall|i: int| 0 <= i < 256 ==> #[trigger] array_key(index as nat)[i] == '0' || array_key(index as nat)[i] == '1',
        binary_value(array_key(index as nat)) == index,
{
    assert(two_pow(64) == 0x1_0000_0000_0000_0000) by {
        reveal_with_fuel(two_pow, 65);
    }
    lemma_two_pow_mono(64, 256);
    lemma_binary_digits_value(index as nat, 256);
}

/// The array holds exactly the keys of the indices below its length.
pub open spec fn packed(d: DictModel) -> bool {
    forall|k: Seq<char>| #[trigger] d.map().contains_key(k) <==> exists|i: nat| i < d.count && k == array_key(i)
}

/// Appending to an array that holds exactly the indices below its length finds
/// the key of the next index free, and the array holds exactly the indices below
/// its new length afterwards.
pub proof fn lemma_packed_append(d: DictModel, e: DictModel, v: Seq<char>)
    requires
        packed(d),
        d.count < usize::MAX,
        e.map() == d.map().insert(array_key(d.count), v),
        e.count == d.count + 1,
    ensures
        !d.map().contains_key(array_key(d.count)),
        packed(e),
{
    if d.map().contains_key(array_key(d.count)) {
        let i = choose|i: nat| i < d.count && array_key(d.count) == #[trigger] array_key(i);
        lemma_binary_key_order(i as usize, d.count as usize);
    }
    assert forall|k: Seq<char>| #[trigger] e.map().contains_key(k) <==> exists|i: nat| i < e.count && k == array_key(i) by {
        if exists|i: nat| i < e.count && k == array_key(i) {
            let i = choose|i: nat| i < e.count && k == array_key(i);
            if i < d.count {
                assert(d.map().contains_key(k));
            }
        }
        if d.map().contains_key(k) {
            let i = choose|i: nat| i < d.count && k == array_key(i);
            assert(i < e.count);
        }
        if k == array_key(d.count) {
            assert(d.count < e.count);
        }
    }
}

/// Converts an integer index to a 256-digit binary string key.
fn binary_key_string(index: usize) -> (k: String)
    ensures
        k@ == array_key(index as nat),
{
    let mut out: Vec<char> = Vec::new();
    let mut t: usize = 0;
    while t < 256
        invariant
            t <= 256,
            out@.len() == t,
        decreases 256 - t,
    {
        out.push('0');
        t += 1;
    }
    let mut m: usize = index;
    let ghost mut suffix: Seq<char> = Seq::empty();
    let mut t: usize = 0;
    while t < 256
        invariant
            t <= 256,
            out@.len() == 256,
            out@.subrange(256 - t, 256) == suffix,
            binary_digits(index as nat, 256) == binary_digits(m as nat, (256 - t) as nat) + suffix,
        decreases 256 - t,
    {
        let d = if m % 2 == 0 { '0' } else { '1' };
        let ghost rest = binary_digits((m / 2) as nat, (255 - t) as nat);
        proof {
            assert(binary_digits(m as nat, (256 - t) as nat) == rest.push(d));
            assert(rest.push(d) + suffix =~= rest + (seq![d] + suffix));
        }
        let ghost before = out@;
        out.set(255 - t, d);
        proof {
            assert(out@.subrange(255 - t, 256) =~= seq![d] + before.subrange(256 - t, 256));
            suffix = seq![d] + suffix;
        }
        m = m / 2;
        t += 1;
    }
    proof {
        assert(binary_digits(m as nat, 0) + suffix =~= suffix);
        assert(out@.subrange(0, 256) =~= out@);
    }
    chars_to_string(&out, 0, 256)
}

/// An append-only ordered collection built on top of `MerkleDictionary`.
///
/// Uses 256-bit binary string keys derived from integer indices to
/// preserve lexicographic ordering in the radix trie.
#[derive(Debug)]
pub struct MerkleArray<V> {
    inner: MerkleDictionary<V>,
}

impl View for MerkleArray<String> {
    type V = DictModel;

    closed spec fn view(&self) -> DictModel {
        self.inner@
    }
}

impl MerkleArray<String> {
    /// The array's internal invariant: that of its dictionary.
    pub open spec fn wf(&self) -> bool {
        self@.wf()
    }

    pub fn new() -> (a: Self)
        ensures
            a.wf(),
            a@.links.len() == 0,
            a@.count == 0,
            a@.map() == Map::<Seq<char>, Seq<char>>::empty(),
            a@.counted(),
            packed(a@),
    {
        MerkleArray { inner: MerkleDictionary::new() }
    }

    pub fn from_dictionary(dict: MerkleDictionary<String>) -> (a: Self)
        ensures
            a@ == dict@,
    {
        MerkleArray { inner: dict }
    }

    pub fn len(&self) -> (n: usize)
        ensures
            n == self@.count,
    {
        self.inner.len()
    }

    pub fn is_empty(&self) -> (b: bool)
        ensures
            b == (self@.count == 0),
    {
        self.inner.is_empty()
    }

    /// Converts an integer index to a 256-bit binary string key.
    pub fn binary_key(index: usize) -> (k: String)
        ensures
            k@ == array_key(index as nat),
    {
        binary_key_string(index)
    }

    /// Returns the value at the given index.
    pub fn get_at(&self, index: usize) -> (r: Result<Option<String>, CashewError>)
        requires
            self.wf(),
        ensures
            self@.blocked(array_key(index as nat)) ==> r == Err::<Option<String>, CashewError>(
                CashewError::NodeNotAvailable,
            ),
            !self@.blocked(array_key(index as nat)) ==> (r matches Ok(v) && opt_view(v) == self@.get(
                array_key(index as nat),
            )),
    {
        let key = Self::binary_key(index);
        self.inner.get(key.as_str())
    }

    /// Appends an element under the key of index `len()`, returning a new array;
    /// a value already stored under that key is replaced.
    pub fn append(&self, value: String) -> (r: Result<Self, CashewError>)
        requires
            self.wf(),
            self@.count < usize::MAX,
        ensures
            self@.blocked(array_key(self@.count)) ==> r == Err::<Self, CashewError>(CashewError::NodeNotAvailable),
            !self@.blocked(array_key(self@.count)) ==> (r matches Ok(a) && a.wf() && a@.map() == self@.map().insert(
                array_key(self@.count),
                value@,
            ) && a@.get(array_key(self@.count)) == Some(value@) && a@.count == (if self@.get(
                array_key(self@.count),
            ) is Some {
                self@.count
            } else {
                self@.count + 1
            }) && forall|k: Seq<char>| #[trigger] a@.blocked(k) == self@.blocked(k)),
            r matches Ok(a) ==> (self@.counted() ==> a@.counted()),
    {
        let key = Self::binary_key(self.len());
        proof {
            lemma_binary_key_len(self@.count);
        }
        let ghost v = value@;
        let ghost k = array_key(self@.count);
        match self.inner.inserting(key.as_str(), value) {
            Ok(d) => {
                let a = MerkleArray { inner: d };
                proof {
                    if !self@.blocked(k) {
                        assert(a@.map().contains_key(k));
                        assert(a@.map()[k] == v);
                        assert(a@.get(k) is Some);
                    }
                }
                Ok(a)
            },
            Err(e) => Err(e),
        }
    }

    /// Returns the first element, or `None` for an empty array.
    pub fn first(&self) -> (r: Result<Option<String>, CashewError>)
        requires
            self.wf(),
        ensures
            self@.count == 0 ==> r == Ok::<Option<String>, CashewError>(None),
            self@.count > 0 && self@.blocked(array_key(0)) ==> r == Err::<Option<String>, CashewError>(
                CashewError::NodeNotAvailable,
            ),
            self@.count > 0 && !self@.blocked(array_key(0)) ==> (r matches Ok(v) && opt_view(v) == self@.get(
                array_key(0),
            )),
    {
        if self.is_empty() {
            return Ok(None);
        }
        self.get_at(0)
    }

    /// Returns the last element, or `None` for an empty array.
    pub fn last(&self) -> (r: Result<Option<String>, CashewError>)
        requires
            self.wf(),
        ensures
            self@.count == 0 ==> r == Ok::<Option<String>, CashewError>(None),
            self@.count > 0 && self@.blocked(array_key((self@.count - 1) as nat)) ==> r == Err::<
                Option<String>,
                CashewError,
            >(CashewError::NodeNotAvailable),
            self@.count > 0 && !self@.blocked(array_key((self@.count - 1) as nat)) ==> (r matches Ok(v)
                && opt_view(v) == self@.get(array_key((self@.count - 1) as nat))),
    {
        if self.is_empty() {
            return Ok(None);
        }
        self.get_at(self.len() - 1)
    }

    /// Returns a reference to the inner dictionary.
    pub fn as_dictionary(&self) -> (d: &MerkleDictionary<String>)
        ensures
            d@ == self@,
    {
        &self.inner
    }
}

impl Clone for MerkleArray<String> {
    fn clone(&self) -> (r: Self)
        ensures
            r@ == self@,
    {
        MerkleArray { inner: self.inner.clone() }
    }
}

impl Default for MerkleArray<String> {
    fn default() -> (a: Self)
        ensures
            a.wf(),
            a@.count == 0,
            a@.map() == Map::<Seq<char>, Seq<char>>::empty(),
    {
        Self::new()
    }
}

/// Where appending the elements of one array to another leads, index by index.
pub enum AppendOutcome {
    /// The entries and the length reached.
    Done(Map<Seq<char>, Seq<char>>, nat),
    /// A key on the way lies under a top-level node that is not loaded.
    Blocked,
}

/// The outcome of appending, in index order, the elements that `o` holds at
/// indices `0..to` to the array `d`.
pub open spec fn append_outcome(d: DictModel, o: DictModel, to: nat) -> AppendOutcome
    decreases to,
{
    if to == 0 {
        AppendOutcome::Done(d.map(), d.count)
    } else {
        match append_outcome(d, o, (to - 1) as nat) {
            AppendOutcome::Done(m, c) => {
                let k = array_key((to - 1) as nat);
                if o.blocked(k) {
                    AppendOutcome::Blocked
                } else if o.get(k) is Some {
                    let nk = array_key(c);
                    if d.blocked(nk) {
                        AppendOutcome::Blocked
                    } else {
                        AppendOutcome::Done(
                            m.insert(nk, o.get(k).unwrap()),
                            if m.contains_key(nk) {
                                c
                            } else {
                                c + 1
                            },
                        )
                    }
                } else {
                    AppendOutcome::Done(m, c)
                }
            },
            r => r,
        }
    }
}

proof fn lemma_outcome_sticky(d: DictModel, o: DictModel, i: nat, n: nat)
    requires
        i <= n,
        !(append_outcome(d, o, i) is Done),
    ensures
        append_outcome(d, o, n) == append_outcome(d, o, i),
    decreases n,
{
    if i < n {
        lemma_outcome_sticky(d, o, i, (n - 1) as nat);
    }
}

proof fn lemma_outcome_count(d: DictModel, o: DictModel, i: nat)
    ensures
        append_outcome(d, o, i) matches AppendOutcome::Done(m, c) ==> c <= d.count + i,
    decreases i,
{
    if i > 0 {
        lemma_outcome_count(d, o, (i - 1) as nat);
    }
}

/// The key of index `base + t`.
pub open spec fn shifted_key(base: nat, t: nat) -> Seq<char> {
    array_key(base + t)
}

/// The number of indices below `i` at which `o` holds an element.
pub open spec fn held_below(o: DictModel, i: nat) -> nat
    decreases i,
{
    if i == 0 {
        0
    } else {
        held_below(o, (i - 1) as nat) + if o.get(array_key((i - 1) as nat)) is Some {
            1nat
        } else {
            0nat
        }
    }
}

proof fn lemma_held_below_grows(o: DictModel, i: nat, n: nat)
    requires
        i <= n,
    ensures
        held_below(o, i) <= held_below(o, n),
        held_below(o, n) <= held_below(o, i) + (n - i),
    decreases n,
{
    if i < n {
        lemma_held_below_grows(o, i, (n - 1) as nat);
    }
}

/// Distinct indices that fit in a `usize` have distinct keys.
pub proof fn lemma_array_key_injective(a: nat, b: nat)
    requires
        a <= usize::MAX,
        b <= usize::MAX,
        array_key(a) == array_key(b),
    ensures
        a == b,
{
    lemma_binary_key_digits(a as usize);
    lemma_binary_key_digits(b as usize);
}

/// Appending the elements that `o` holds at the indices below `to` to an array
/// `d` with no key at or beyond its length: each held element lands, in index
/// order, at the next index (`d.count` plus the number of held indices before
/// it), whatever its value; the length grows by the number of held elements; no
/// other key appears and every key of `d` keeps its value.
pub proof fn lemma_append_all_places(d: DictModel, o: DictModel, to: nat)
    requires
        forall|j: nat| j >= d.count ==> !#[trigger] d.map().contains_key(array_key(j)),
        d.count + to <= usize::MAX,
    ensures
        append_outcome(d, o, to) matches AppendOutcome::Done(m, c) ==> {
            &&& c == d.count + held_below(o, to)
            &&& forall|i: nat|
                i < to && #[trigger] o.get(array_key(i)) is Some ==> m.contains_key(
                    array_key(d.count + held_below(o, i)),
                ) && m[array_key(d.count + held_below(o, i))] == o.get(array_key(i)).unwrap()
            &&& forall|k: Seq<char>|
                #[trigger] m.contains_key(k) <==> (d.map().contains_key(k) || exists|t: nat|
                    t < held_below(o, to) && k == #[trigger] shifted_key(d.count, t))
            &&& forall|k: Seq<char>| #[trigger] d.map().contains_key(k) ==> m[k] == d.map()[k]
        },
    decreases to,
{
    if to > 0 {
        let p = (to - 1) as nat;
        lemma_append_all_places(d, o, p);
        lemma_held_below_grows(o, 0, p);
        match append_outcome(d, o, p) {
            AppendOutcome::Done(m0, c0) => {
                let k = array_key(p);
                if !o.blocked(k) && o.get(k) is Some {
                    let nk = array_key(c0);
                    if !d.blocked(nk) {
                        let m = m0.insert(nk, o.get(k).unwrap());
                        assert(!m0.contains_key(nk)) by {
                            if m0.contains_key(nk) {
                                if d.map().contains_key(nk) {
                                    assert(!d.map().contains_key(array_key(c0)));
                                } else {
                                    let t = choose|t: nat| t < held_below(o, p) && nk == shifted_key(d.count, t);
                                    lemma_array_key_injective(c0, d.count + t);
                                }
                            }
                        }
                        assert(held_below(o, to) == held_below(o, p) + 1);
                        assert forall|i: nat| i < to && #[trigger] o.get(array_key(i)) is Some implies m.contains_key(
                            array_key(d.count + held_below(o, i)),
                        ) && m[array_key(d.count + held_below(o, i))] == o.get(array_key(i)).unwrap() by {
                            if i < p {
                                lemma_held_below_grows(o, i + 1, p);
                                lemma_held_below_grows(o, 0, i);
                                assert(held_below(o, i + 1) == held_below(o, i) + 1);
                                if array_key(d.count + held_below(o, i)) == nk {
                                    lemma_array_key_injective(d.count + held_below(o, i), c0);
                                }
                            }
                        }
                        assert forall|kk: Seq<char>| #[trigger] m.contains_key(kk) <==> (d.map().contains_key(kk)
                            || exists|t: nat| t < held_below(o, to) && kk == #[trigger] shifted_key(d.count, t)) by {
                            if exists|t: nat| t < held_below(o, to) && kk == #[trigger] shifted_key(d.count, t) {
                                let t = choose|t: nat| t < held_below(o, to) && kk == #[trigger] shifted_key(d.count, t);
                                if t < held_below(o, p) {
                                    assert(m0.contains_key(kk));
                                }
                            }
                            if m0.contains_key(kk) && !d.map().contains_key(kk) {
                                let t = choose|t: nat| t < held_below(o, p) && kk == #[trigger] shifted_key(d.count, t);
                                assert(t < held_below(o, to));
                            }
                            if kk == nk {
                                assert(held_below(o, p) < held_below(o, to) && nk == shifted_key(d.count, held_below(o, p)));
                            }
                        }
                        assert forall|kk: Seq<char>| #[trigger] d.map().contains_key(kk) implies m[kk] == d.map()[kk] by {
                            if kk == nk {
                                assert(!d.map().contains_key(array_key(c0)));
                            }
                        }
                    }
                } else if !o.blocked(k) {
                    assert(held_below(o, to) == held_below(o, p));
                    assert forall|i: nat| i < to && #[trigger] o.get(array_key(i)) is Some implies m0.contains_key(
                        array_key(d.count + held_below(o, i)),
                    ) && m0[array_key(d.count + held_below(o, i))] == o.get(array_key(i)).unwrap() by {
                        if i < p {
                        }
                    }
                }
            },
            _ => {},
        }
    }
}

impl MerkleArray<String> {
    /// Appends, in index order, every element that `other` holds at the indices
    /// below its length.
    pub fn append_all(&self, other: &Self) -> (r: Result<Self, CashewError>)
        requires
            self.wf(),
            other.wf(),
            self@.count + other@.count <= usize::MAX,
        ensures
            match append_outcome(self@, other@, other@.count) {
                AppendOutcome::Done(m, c) => r matches Ok(a) && a.wf() && a@.map() == m && a@.count == c
                    && forall|k: Seq<char>| #[trigger] a@.blocked(k) == self@.blocked(k),
                AppendOutcome::Blocked => r == Err::<Self, CashewError>(CashewError::NodeNotAvailable),
            },
            (forall|j: nat| j >= self@.count ==> !#[trigger] self@.map().contains_key(array_key(j))) ==> (r matches Ok(a)
                ==> a@.count == self@.count + held_below(other@, other@.count) && forall|i: nat|
                i < other@.count && #[trigger] other@.get(array_key(i)) is Some ==> a@.get(
                    array_key(self@.count + held_below(other@, i)),
                ) == other@.get(array_key(i))),
    {
        proof {
            if forall|j: nat| j >= self@.count ==> !#[trigger] self@.map().contains_key(array_key(j)) {
                lemma_append_all_places(self@, other@, other@.count);
            }
        }
        let mut result = self.clone();
        let n = other.len();
        let mut i: usize = 0;
        while i < n
            invariant
                i <= n,
                n == other@.count,
                self.wf(),
                other.wf(),
                self@.count + other@.count <= usize::MAX,
                result.wf(),
                forall|k: Seq<char>| #[trigger] result@.blocked(k) == self@.blocked(k),
                append_outcome(self@, other@, i as nat) == AppendOutcome::Done(result@.map(), result@.count),
            decreases n - i,
        {
            proof {
                lemma_outcome_count(self@, other@, i as nat);
            }
            let got = match other.get_at(i) {
                Ok(v) => v,
                Err(e) => {
                    proof {
                        lemma_outcome_sticky(self@, other@, (i + 1) as nat, other@.count);
                    }
                    return Err(e);
                },
            };
            match got {
                Some(v) => {
                    proof {
                        assert(result@.map().contains_key(array_key(result@.count)) == (result@.get(
                            array_key(result@.count),
                        ) is Some));
                    }
                    let next = match result.append(v) {
                        Ok(a) => a,
                        Err(e) => {
                            proof {
                                lemma_outcome_sticky(self@, other@, (i + 1) as nat, other@.count);
                            }
                            return Err(e);
                        },
                    };
                    result = next;
                },
                None => {},
            }
            i += 1;
        }
        Ok(result)
    }
}

impl MerkleArray<String> {
    /// Serializes to the JSON bytes of the underlying dictionary.
    pub fn to_data(&self) -> (r: Result<Vec<u8>, CashewError>)
        ensures
            r matches Ok(b) && b@ == dict_bytes(self@),
    {
        self.inner.to_data()
    }

    /// Deserializes from the JSON bytes of a dictionary; its top-level links come
    /// back lazy.
    pub fn from_data(data: &[u8]) -> (r: Result<Self, CashewError>)
        ensures
            r matches Ok(s) ==> s.wf() && forall|j: int| 0 <= j < s@.links.len() ==> (#[trigger] s@.links[j]).1.node is None,
            r matches Err(e) ==> e is DecodeError,
            forall|m: DictModel| m.wf() && m.count <= usize::MAX && #[trigger] dict_bytes(m) == data@ ==> (r matches Ok(s)
                && s@.links == lazy_links(m.links) && s@.count == m.count),
    {
        match MerkleDictionary::from_data(data) {
            Ok(d) => Ok(MerkleArray { inner: d }),
            Err(e) => Err(e),
        }
    }
}

impl MerkleArray<String> {
    /// The array's text form, `MerkleArray(count=N)`.
    pub fn display_string(&self) -> (r: String)
        ensures
            r@ == count_text("MerkleArray"@, self@.count),
    {
        count_string("MerkleArray", self.len())
    }
}

impl MerkleArray<String> {
    /// Puts a fetched node under the lazy top-level link keyed by `c`, as
    /// `MerkleDictionary::resolving` does for the underlying dictionary.
    pub fn resolving(&self, c: char, node: RadixNode<String>) -> (r: Result<Self, CashewError>)
        requires
            self.wf(),
        ensures
            resolved_links(self@.links, c, node@) is Some && trie_wf(node@) && node@.prefix.len() > 0
                && node@.prefix[0] == c ==> (r matches Ok(d) && d.wf() && d@ == (DictModel {
                links: resolved_links(self@.links, c, node@)->0,
                count: self@.count,
            })),
            !(resolved_links(self@.links, c, node@) is Some && trie_wf(node@) && node@.prefix.len() > 0
                && node@.prefix[0] == c) ==> (r matches Err(e) && e is ResolutionError),
    {
        match self.inner.resolving(c, node) {
            Ok(d) => Ok(MerkleArray { inner: d }),
            Err(e) => Err(e),
        }
    }
}

} // verus!
