//! Short identifiers (component types, action names, labels).
//!
//! A symbol is a string of at most 32 characters drawn from
//! `[a-zA-Z0-9_]`. It is stored as its bytes packed big-endian into two
//! 128-bit words, padded with zero bytes. Because no valid character is
//! the zero byte, equality of the words is equality of the strings, and
//! the lexicographic order of the word pair is the lexicographic order of
//! the strings.

use vstd::prelude::*;
use vstd::string::StringSliceAdditionalSpecFns;

verus! {

/// Maximum number of characters in a symbol.
pub const MAX_SYMBOL_LEN: usize = 32;

/// A short identifier, packed into two words.
#[derive(Clone, Copy, Debug, PartialEq, Eq, Structural, Hash)]
pub struct Symbol {
    pub hi: u128,
    pub lo: u128,
}

/// Whether a byte may appear in a symbol.
pub open spec fn is_symbol_char(c: u8) -> bool {
    ||| (97 <= c && c <= 122)
    ||| (65 <= c && c <= 90)
    ||| (48 <= c && c <= 57)
    ||| c == 95
}

/// Whether a byte string is a valid symbol text.
pub open spec fn valid_symbol_text(s: Seq<u8>) -> bool {
    &&& s.len() <= 32
    &&& forall|i: int| 0 <= i < s.len() ==> is_symbol_char(#[trigger] s[i])
}

/// The byte at `i`, or zero past the end.
pub open spec fn byte_or_zero(s: Seq<u8>, i: int) -> int {
    if 0 <= i < s.len() {
        s[i] as int
    } else {
        0
    }
}

/// The `k` bytes of `s` from `start` (zero-padded), read as a big-endian number.
pub open spec fn pack_word(s: Seq<u8>, start: int, k: nat) -> int
    decreases k,
{
    if k == 0 {
        0
    } else {
        pack_word(s, start, (k - 1) as nat) * 256 + byte_or_zero(s, start + k - 1)
    }
}

/// The symbol whose text is `s`.
pub open spec fn symbol_of(s: Seq<u8>) -> Symbol {
    Symbol { hi: pack_word(s, 0, 16) as u128, lo: pack_word(s, 16, 16) as u128 }
}

/// The order of symbols: lexicographic order of their texts.
pub open spec fn symbol_lt(a: Symbol, b: Symbol) -> bool {
    a.hi < b.hi || (a.hi == b.hi && a.lo < b.lo)
}

/// 256 to the power `k`.
pub open spec fn word_bound(k: nat) -> int
    decreases k,
{
    if k == 0 {
        1
    } else {
        word_bound((k - 1) as nat) * 256
    }
}

pub(crate) proof fn lemma_pack_word_bound(s: Seq<u8>, start: int, k: nat)
    ensures
        0 <= pack_word(s, start, k) < word_bound(k),
    decreases k,
{
    if k > 0 {
        lemma_pack_word_bound(s, start, (k - 1) as nat);
    }
}

proof fn lemma_word_bound_mono(j: nat, k: nat)
    requires
        j <= k,
    ensures
        1 <= word_bound(j) <= word_bound(k),
    decreases k,
{
    if k > j {
        lemma_word_bound_mono(j, (k - 1) as nat);
    } else if k > 0 {
        lemma_word_bound_mono(0, (k - 1) as nat);
    }
}

pub(crate) proof fn lemma_word_bound_16()
    ensures
        word_bound(16) == 0x1_0000_0000_0000_0000_0000_0000_0000_0000int,
{
    reveal_with_fuel(word_bound, 17);
}

pub(crate) fn pack_from(bytes: &[u8], start: usize) -> (w: u128)
    requires
        start <= 16,
    ensures
        w as int == pack_word(bytes@, start as int, 16),
{
    let mut acc: u128 = 0;
    let mut k: usize = 0;
    while k < 16
        invariant
            k <= 16,
            start <= 16,
            acc as int == pack_word(bytes@, start as int, k as nat),
        decreases 16 - k,
    {
        proof {
            lemma_pack_word_bound(bytes@, start as int, (k + 1) as nat);
            lemma_word_bound_mono((k + 1) as nat, 16);
            lemma_word_bound_16();
        }
        let i = start + k;
        let b: u128 = if i < bytes.len() {
            bytes[i] as u128
        } else {
            0
        };
        acc = acc * 256 + b;
        k = k + 1;
    }
    acc
}

/// Whether `a` from `sa` and `b` from `sb` agree at offset `i` (bytes
/// past the end reading as zero).
pub open spec fn bytes_agree(a: Seq<u8>, sa: int, b: Seq<u8>, sb: int, i: int) -> bool {
    byte_or_zero(a, sa + i) == byte_or_zero(b, sb + i)
}

/// Packing reads only the bytes it packs.
proof fn lemma_pack_congruent(a: Seq<u8>, sa: int, b: Seq<u8>, sb: int, k: nat)
    requires
        forall|i: int| 0 <= i < k ==> #[trigger] bytes_agree(a, sa, b, sb, i),
    ensures
        pack_word(a, sa, k) == pack_word(b, sb, k),
    decreases k,
{
    if k > 0 {
        lemma_pack_congruent(a, sa, b, sb, (k - 1) as nat);
        assert(bytes_agree(a, sa, b, sb, k - 1));
    }
}

proof fn lemma_last_digit(hi_a: int, x: int, hi_b: int, y: int)
    by (nonlinear_arith)
    requires
        0 <= x < 256,
        0 <= y < 256,
        hi_a * 256 + x == hi_b * 256 + y,
    ensures
        x == y,
        hi_a == hi_b,
{
}

/// Equal packings are packings of equal bytes.
pub(crate) proof fn lemma_pack_injective(a: Seq<u8>, sa: int, b: Seq<u8>, sb: int, k: nat)
    requires
        pack_word(a, sa, k) == pack_word(b, sb, k),
    ensures
        forall|i: int| 0 <= i < k ==> #[trigger] bytes_agree(a, sa, b, sb, i),
    decreases k,
{
    if k > 0 {
        let m = (k - 1) as nat;
        lemma_last_digit(pack_word(a, sa, m), byte_or_zero(a, sa + m), pack_word(b, sb, m), byte_or_zero(b, sb + m));
        lemma_pack_injective(a, sa, b, sb, m);
    }
}

/// Packing `n + 1` bytes puts the first one above the other `n`.
proof fn lemma_pack_front(s: Seq<u8>, start: int, n: nat)
    ensures
        pack_word(s, start, n + 1) == byte_or_zero(s, start) * word_bound(n) + pack_word(s, start + 1, n),
    decreases n,
{
    if n > 0 {
        let m = (n - 1) as nat;
        lemma_pack_front(s, start, m);
        let first = byte_or_zero(s, start);
        let w = word_bound(m);
        let rest = pack_word(s, start + 1, m);
        assert((first * w + rest) * 256 == first * (w * 256) + rest * 256) by (nonlinear_arith);
        assert(pack_word(s, start, n) == first * w + rest);
        assert(pack_word(s, start, n + 1) == pack_word(s, start, n) * 256 + byte_or_zero(s, start + n));
        assert(pack_word(s, start + 1, n) == rest * 256 + byte_or_zero(s, start + 1 + m));
        assert(word_bound(n) == w * 256);
        assert(start + 1 + m == start + n);
        assert(first * word_bound(n) == first * (w * 256));
    } else {
        assert(pack_word(s, start, 0) == 0);
        assert(pack_word(s, start, 1) == byte_or_zero(s, start));
        assert(word_bound(0) == 1);
    }
}

proof fn lemma_split_digit(cur: int, q: int, b: int, w: int)
    by (nonlinear_arith)
    requires
        cur == q * 256 + b,
    ensures
        cur * w == q * (w * 256) + b * w,
{
}

/// The 16 bytes that pack into `w`, most significant first.
fn unpack_word(w: u128) -> (o: Vec<u8>)
    ensures
        o@.len() == 16,
        pack_word(o@, 0, 16) == w as int,
{
    let mut o: Vec<u8> = Vec::new();
    let mut z: usize = 0;
    while z < 16
        invariant
            z <= 16,
            o@.len() == z,
        decreases 16 - z,
    {
        o.push(0);
        z = z + 1;
    }
    let mut cur: u128 = w;
    let mut k: usize = 16;
    while k > 0
        invariant
            k <= 16,
            o@.len() == 16,
            w as int == cur as int * word_bound((16 - k) as nat) + pack_word(o@, k as int, (16 - k) as nat),
        decreases k,
    {
        let b: u8 = (cur % 256) as u8;
        let q: u128 = cur / 256;
        let ghost old_o = o@;
        o.set(k - 1, b);
        proof {
            let n = (16 - k) as nat;
            lemma_pack_front(o@, k - 1, n);
            assert forall|i: int| 0 <= i < n implies #[trigger] bytes_agree(o@, k as int, old_o, k as int, i) by {
            }
            lemma_pack_congruent(o@, k as int, old_o, k as int, n);
            assert(byte_or_zero(o@, k - 1) == b as int);
            lemma_split_digit(cur as int, q as int, b as int, word_bound(n));
            assert(word_bound(n + 1) == word_bound(n) * 256);
            assert(k - 1 + 1 == k);
        }
        cur = q;
        k = k - 1;
    }
    proof {
        lemma_pack_word_bound(o@, 0, 16);
        lemma_word_bound_16();
        if cur > 0 {
            assert(cur as int * word_bound(16) >= word_bound(16)) by (nonlinear_arith)
                requires
                    cur > 0,
                    word_bound(16) > 0;
        }
    }
    o
}

/// The 32 bytes of two packed words, high word first.
pub(crate) fn unpack_pair(hi: u128, lo: u128) -> (o: Vec<u8>)
    ensures
        o@.len() == 32,
        pack_word(o@, 0, 16) == hi as int,
        pack_word(o@, 16, 16) == lo as int,
{
    let mut o = unpack_word(hi);
    let mut l = unpack_word(lo);
    let ghost a = o@;
    let ghost b = l@;
    o.append(&mut l);
    proof {
        assert(o@ == a + b);
        assert forall|i: int| 0 <= i < 16 implies #[trigger] bytes_agree(o@, 0, a, 0, i) by {
        }
        lemma_pack_congruent(o@, 0, a, 0, 16);
        assert forall|i: int| 0 <= i < 16 implies #[trigger] bytes_agree(o@, 16, b, 0, i) by {
        }
        lemma_pack_congruent(o@, 16, b, 0, 16);
    }
    o
}

/// The symbol whose text is `bytes`, for a text known to be valid.
pub fn symbol_from_text(bytes: &[u8]) -> (s: Symbol)
    requires
        valid_symbol_text(bytes@),
    ensures
        s == symbol_of(bytes@),
{
    Symbol { hi: pack_from(bytes, 0), lo: pack_from(bytes, 16) }
}

impl Symbol {
    /// Creates the symbol whose text is `name`.
    pub fn new(name: &str) -> (s: Symbol)
        requires
            valid_symbol_text(name.spec_bytes()),
        ensures
            s == symbol_of(name.spec_bytes()),
    {
        let bytes = name.as_bytes();
        Symbol { hi: pack_from(bytes, 0), lo: pack_from(bytes, 16) }
    }

    /// Creates the symbol whose text is `bytes`, or `None` when the bytes
    /// are not a valid symbol text.
    pub fn from_bytes(bytes: &[u8]) -> (r: Option<Symbol>)
        ensures
            r is Some <==> valid_symbol_text(bytes@),
            r matches Some(s) ==> s == symbol_of(bytes@),
    {
        if bytes.len() > MAX_SYMBOL_LEN {
            return None;
        }
        let mut i: usize = 0;
        while i < bytes.len()
            invariant
                i <= bytes@.len(),
                forall|j: int| 0 <= j < i ==> is_symbol_char(#[trigger] bytes@[j]),
            decreases bytes@.len() - i,
        {
            let c = bytes[i];
            if !((97 <= c && c <= 122) || (65 <= c && c <= 90) || (48 <= c && c <= 57) || c == 95) {
                return None;
            }
            i = i + 1;
        }
        Some(Symbol { hi: pack_from(bytes, 0), lo: pack_from(bytes, 16) })
    }

    /// The text of the symbol: `Some` of the text `t` exactly when the
    /// symbol is the symbol of a valid text `t`, else `None`.
    pub fn to_text(&self) -> (r: Option<Vec<u8>>)
        ensures
            r matches Some(t) ==> valid_symbol_text(t@) && symbol_of(t@) == *self,
            forall|t: Seq<u8>| valid_symbol_text(t) && #[trigger] symbol_of(t) == *self
                ==> (r matches Some(u) && u@ == t),
    {
        let full = unpack_pair(self.hi, self.lo);
        let mut n: usize = 0;
        while n < 32 && full[n] != 0
            invariant
                n <= 32,
                full@.len() == 32,
                forall|j: int| 0 <= j < n ==> full@[j] != 0,
            decreases 32 - n,
        {
            n = n + 1;
        }
        let mut ok = true;
        let mut i: usize = n;
        while i < 32
            invariant
                n <= i <= 32,
                full@.len() == 32,
                ok <==> forall|j: int| n <= j < i ==> full@[j] == 0,
            decreases 32 - i,
        {
            if full[i] != 0 {
                ok = false;
            }
            i = i + 1;
        }
        let mut text: Vec<u8> = Vec::new();
        let mut j: usize = 0;
        while j < n
            invariant
                j <= n <= 32,
                full@.len() == 32,
                text@ == full@.take(j as int),
                ok ==> forall|k: int| 0 <= k < j ==> is_symbol_char(#[trigger] full@[k]),
                (forall|k: int| 0 <= k < j ==> is_symbol_char(#[trigger] full@[k])) && (forall|k: int| n <= k < 32 ==> full@[k] == 0)
                    ==> ok,
                ok ==> forall|k: int| n <= k < 32 ==> full@[k] == 0,
            decreases n - j,
        {
            let c = full[j];
            if !((97 <= c && c <= 122) || (65 <= c && c <= 90) || (48 <= c && c <= 57) || c == 95) {
                ok = false;
            }
            text.push(c);
            j = j + 1;
            assert(text@ =~= full@.take(j as int));
        }
        proof {
            if ok {
                assert forall|k: int| 0 <= k < 16 implies #[trigger] bytes_agree(text@, 0, full@, 0, k) by {
                    if k >= n {
                        assert(full@[k] == 0);
                    }
                }
                lemma_pack_congruent(text@, 0, full@, 0, 16);
                assert forall|k: int| 0 <= k < 16 implies #[trigger] bytes_agree(text@, 16, full@, 16, k) by {
                    if 16 + k >= n {
                        assert(full@[16 + k] == 0);
                    }
                }
                lemma_pack_congruent(text@, 16, full@, 16, 16);
            }
            assert forall|t: Seq<u8>| valid_symbol_text(t) && #[trigger] symbol_of(t) == *self
                implies (ok && text@ == t) by {
                lemma_pack_word_bound(t, 0, 16);
                lemma_pack_word_bound(t, 16, 16);
                lemma_word_bound_16();
                lemma_pack_injective(t, 0, full@, 0, 16);
                lemma_pack_injective(t, 16, full@, 16, 16);
                assert forall|k: int| 0 <= k < 32 implies full@[k] == byte_or_zero(t, k) by {
                    if k < 16 {
                        assert(bytes_agree(t, 0, full@, 0, k));
                    } else {
                        assert(bytes_agree(t, 16, full@, 16, k - 16));
                    }
                }
                if t.len() < 32 {
                    assert(byte_or_zero(t, t.len() as int) == 0);
                    assert(full@[t.len() as int] == 0);
                }
                if n < t.len() {
                    assert(is_symbol_char(t[n as int]));
                    assert(byte_or_zero(t, n as int) == t[n as int]);
                    assert(full@[n as int] == t[n as int]);
                }
                assert(n == t.len());
                assert forall|k: int| 0 <= k < n implies is_symbol_char(#[trigger] full@[k]) by {
                    assert(byte_or_zero(t, k) == t[k]);
                    assert(full@[k] == t[k]);
                }
                assert forall|k: int| 0 <= k < n implies text@[k] == t[k] by {
                    assert(byte_or_zero(t, k) == t[k]);
                }
                assert forall|k: int| n <= k < 32 implies full@[k] == 0 by {
                    assert(byte_or_zero(t, k) == 0);
                }
                assert(text@ =~= t);
            }
        }
        if ok {
            Some(text)
        } else {
            None
        }
    }

    /// Whether this symbol orders strictly before `other`.
    pub fn lt(&self, other: &Symbol) -> (r: bool)
        ensures
            r == symbol_lt(*self, *other),
    {
        self.hi < other.hi || (self.hi == other.hi && self.lo < other.lo)
    }
}

/// The predicate "differs from `t`".
pub open spec fn differs_from(t: Symbol) -> spec_fn(Symbol) -> bool {
    |x: Symbol| x != t
}

/// The sequence `s` with every occurrence of `t` left out.
pub open spec fn without_sym(s: Seq<Symbol>, t: Symbol) -> Seq<Symbol> {
    s.filter(differs_from(t))
}

/// Facts about leaving a symbol out of a sequence.
pub proof fn lemma_without_sym(s: Seq<Symbol>, t: Symbol)
    ensures
        forall|x: Symbol| #[trigger] without_sym(s, t).contains(x) <==> (s.contains(x) && x != t),
        s.no_duplicates() ==> without_sym(s, t).no_duplicates(),
        !s.contains(t) ==> without_sym(s, t) == s,
    decreases s.len(),
{
    if s.len() > 0 {
        let p = s.drop_last();
        let last = s.last();
        lemma_without_sym(p, t);
        assert(s =~= p.push(last));
        p.lemma_filter_push(last, differs_from(t));
        let wp = without_sym(p, t);
        let ws = without_sym(s, t);
        assert(ws == if last != t { wp.push(last) } else { wp });
        assert forall|x: Symbol| #[trigger] ws.contains(x) <==> (s.contains(x) && x != t) by {
            if s.contains(x) && x != t {
                let i = choose|i: int| 0 <= i < s.len() && s[i] == x;
                if i < s.len() - 1 {
                    assert(p[i] == x);
                    assert(p.contains(x));
                    assert(wp.contains(x));
                    let j = choose|j: int| 0 <= j < wp.len() && wp[j] == x;
                    if last != t {
                        assert(ws[j] == x);
                    }
                } else {
                    assert(x == last);
                    assert(ws[ws.len() - 1] == x);
                }
            }
            if ws.contains(x) {
                let j = choose|j: int| 0 <= j < ws.len() && ws[j] == x;
                if last != t && j == ws.len() - 1 {
                    assert(x == last);
                    assert(s[s.len() - 1] == x);
                } else {
                    assert(wp[j] == x);
                    assert(wp.contains(x));
                    let i = choose|i: int| 0 <= i < p.len() && p[i] == x;
                    assert(s[i] == x);
                }
            }
        }
        if s.no_duplicates() {
            assert forall|i: int, j: int| 0 <= i < p.len() && 0 <= j < p.len() && i != j implies p[i]
                != p[j] by {
                assert(s[i] == p[i] && s[j] == p[j]);
            }
            assert(!wp.contains(last)) by {
                if wp.contains(last) {
                    assert(p.contains(last));
                    let i = choose|i: int| 0 <= i < p.len() && p[i] == last;
                    assert(s[i] == s[s.len() - 1]);
                }
            }
            assert forall|i: int, j: int| 0 <= i < ws.len() && 0 <= j < ws.len() && i != j implies ws[i]
                != ws[j] by {
                if last != t {
                    if i == ws.len() - 1 {
                        assert(wp.contains(wp[j]));
                    } else if j == ws.len() - 1 {
                        assert(wp.contains(wp[i]));
                    }
                }
            }
        }
        if !s.contains(t) {
            assert(!p.contains(t)) by {
                if p.contains(t) {
                    let i = choose|i: int| 0 <= i < p.len() && p[i] == t;
                    assert(s[i] == t);
                }
            }
            assert(last != t) by {
                assert(s[s.len() - 1] == last);
            }
        }
    } else {
        assert(s.filter(differs_from(t)) =~= s) by {
            reveal(Seq::filter);
        }
    }
}

/// Whether `v` holds `t`.
pub fn syms_contain(v: &Vec<Symbol>, t: Symbol) -> (r: bool)
    ensures
        r == v@.contains(t),
{
    let mut i: usize = 0;
    while i < v.len()
        invariant
            i <= v@.len(),
            forall|j: int| 0 <= j < i ==> v@[j] != t,
        decreases v@.len() - i,
    {
        if v[i] == t {
            assert(v@[i as int] == t);
            return true;
        }
        i = i + 1;
    }
    false
}

/// The symbols of `v` other than `t`, in their order.
pub fn syms_without(v: &Vec<Symbol>, t: Symbol) -> (r: Vec<Symbol>)
    ensures
        r@ == without_sym(v@, t),
{
    broadcast use vstd::seq_lib::group_seq_properties;

    let mut r: Vec<Symbol> = Vec::new();
    let mut i: usize = 0;
    while i < v.len()
        invariant
            i <= v@.len(),
            r@ == without_sym(v@.subrange(0, i as int), t),
        decreases v@.len() - i,
    {
        let x = v[i];
        proof {
            assert(v@.subrange(0, i + 1) =~= v@.subrange(0, i as int).push(x));
            v@.subrange(0, i as int).lemma_filter_push(x, differs_from(t));
        }
        if x != t {
            r.push(x);
        }
        i = i + 1;
    }
    assert(v@.subrange(0, v@.len() as int) =~= v@);
    r
}

/// A copy of a sequence of symbols.
pub fn copy_syms(v: &Vec<Symbol>) -> (r: Vec<Symbol>)
    ensures
        r@ == v@,
{
    let mut r: Vec<Symbol> = Vec::new();
    let mut i: usize = 0;
    while i < v.len()
        invariant
            i <= v@.len(),
            r@ == v@.subrange(0, i as int),
        decreases v@.len() - i,
    {
        r.push(v[i]);
        i = i + 1;
        assert(r@ =~= v@.subrange(0, i as int));
    }
    assert(r@ =~= v@);
    r
}

/// Whether a sequence of symbols is strictly increasing.
pub open spec fn syms_sorted(s: Seq<Symbol>) -> bool {
    forall|i: int, j: int| 0 <= i < j < s.len() ==> symbol_lt(#[trigger] s[i], #[trigger] s[j])
}

/// Two strictly increasing sequences with the same symbols are equal.
pub proof fn lemma_sorted_same_symbols(a: Seq<Symbol>, b: Seq<Symbol>)
    requires
        syms_sorted(a),
        syms_sorted(b),
        forall|x: Symbol| a.contains(x) <==> b.contains(x),
    ensures
        a == b,
    decreases a.len(),
{
    if a.len() == 0 {
        if b.len() > 0 {
            assert(b.contains(b[0]));
        }
        assert(a =~= b);
    } else {
        assert(a.contains(a[0]));
        assert(b.len() > 0);
        let j = choose|j: int| 0 <= j < b.len() && b[j] == a[0];
        assert(b.contains(b[0]));
        let k = choose|k: int| 0 <= k < a.len() && a[k] == b[0];
        if j > 0 {
            assert(symbol_lt(b[0], b[j]));
            if k > 0 {
                assert(symbol_lt(a[0], a[k]));
            }
        }
        assert(a[0] == b[0]);
        let a1 = a.drop_first();
        let b1 = b.drop_first();
        assert forall|x: Symbol| a1.contains(x) <==> b1.contains(x) by {
            if a1.contains(x) {
                let i = choose|i: int| 0 <= i < a1.len() && a1[i] == x;
                assert(a[i + 1] == x);
                assert(symbol_lt(a[0], a[i + 1]));
                assert(b.contains(x));
                let m = choose|m: int| 0 <= m < b.len() && b[m] == x;
                assert(m != 0);
                assert(b1[m - 1] == x);
            }
            if b1.contains(x) {
                let i = choose|i: int| 0 <= i < b1.len() && b1[i] == x;
                assert(b[i + 1] == x);
                assert(symbol_lt(b[0], b[i + 1]));
                assert(a.contains(x));
                let m = choose|m: int| 0 <= m < a.len() && a[m] == x;
                assert(m != 0);
                assert(a1[m - 1] == x);
            }
        }
        assert(syms_sorted(a1)) by {
            assert forall|i: int, j2: int| 0 <= i < j2 < a1.len() implies symbol_lt(#[trigger] a1[i], #[trigger] a1[j2]) by {
                assert(a1[i] == a[i + 1] && a1[j2] == a[j2 + 1]);
            }
        }
        assert(syms_sorted(b1)) by {
            assert forall|i: int, j2: int| 0 <= i < j2 < b1.len() implies symbol_lt(#[trigger] b1[i], #[trigger] b1[j2]) by {
                assert(b1[i] == b[i + 1] && b1[j2] == b[j2 + 1]);
            }
        }
        lemma_sorted_same_symbols(a1, b1);
        assert(a =~= b) by {
            assert forall|i: int| 0 <= i < a.len() implies a[i] == b[i] by {
                if i > 0 {
                    assert(a[i] == a1[i - 1] && b[i] == b1[i - 1]);
                }
            }
        }
    }
}

/// A strictly increasing sequence has no repeated symbol.
pub proof fn lemma_sorted_no_dup(s: Seq<Symbol>)
    requires
        syms_sorted(s),
    ensures
        s.no_duplicates(),
{
    assert forall|i: int, j: int| 0 <= i < s.len() && 0 <= j < s.len() && i != j implies s[i] != s[j] by {
        if i < j {
            assert(symbol_lt(s[i], s[j]));
        } else {
            assert(symbol_lt(s[j], s[i]));
        }
    }
}

/// Leaving a symbol out of a strictly increasing sequence keeps it so.
pub proof fn lemma_without_sorted(s: Seq<Symbol>, t: Symbol)
    requires
        syms_sorted(s),
    ensures
        syms_sorted(without_sym(s, t)),
    decreases s.len(),
{
    if s.len() > 0 {
        let p = s.drop_last();
        let last = s.last();
        assert(s =~= p.push(last));
        assert(syms_sorted(p)) by {
            assert forall|i: int, j: int| 0 <= i < j < p.len() implies symbol_lt(#[trigger] p[i], #[trigger] p[j]) by {
                assert(s[i] == p[i] && s[j] == p[j]);
            }
        }
        lemma_without_sorted(p, t);
        lemma_without_sym(p, t);
        p.lemma_filter_push(last, differs_from(t));
        let wp = without_sym(p, t);
        if last != t {
            assert forall|i: int, j: int| 0 <= i < j < wp.len() + 1 implies symbol_lt(#[trigger] wp.push(last)[i], #[trigger] wp.push(last)[j]) by {
                if j == wp.len() {
                    assert(wp.contains(wp[i]));
                    assert(p.contains(wp[i]));
                    let k = choose|k: int| 0 <= k < p.len() && p[k] == wp[i];
                    assert(s[k] == p[k]);
                    assert(symbol_lt(s[k], s[s.len() - 1]));
                } else {
                    assert(wp.push(last)[i] == wp[i] && wp.push(last)[j] == wp[j]);
                }
            }
        }
    } else {
        assert(s.filter(differs_from(t)) =~= s) by {
            reveal(Seq::filter);
        }
    }
}

/// Whether two sequences of symbols are equal.
pub fn syms_eq(a: &Vec<Symbol>, b: &Vec<Symbol>) -> (r: bool)
    ensures
        r == (a@ == b@),
{
    if a.len() != b.len() {
        return false;
    }
    let mut i: usize = 0;
    while i < a.len()
        invariant
            a@.len() == b@.len(),
            i <= a@.len(),
            forall|j: int| 0 <= j < i ==> a@[j] == b@[j],
        decreases a@.len() - i,
    {
        if a[i] != b[i] {
            return false;
        }
        i = i + 1;
    }
    assert(a@ =~= b@);
    true
}

/// Inserts `t` into a strictly increasing sequence that lacks it, keeping
/// the sequence strictly increasing.
pub fn syms_insert_sorted(v: &Vec<Symbol>, t: Symbol) -> (r: Vec<Symbol>)
    requires
        syms_sorted(v@),
        !v@.contains(t),
    ensures
        syms_sorted(r@),
        r@.len() == v@.len() + 1,
        forall|x: Symbol| #[trigger] r@.contains(x) <==> (v@.contains(x) || x == t),
{
    let mut r: Vec<Symbol> = Vec::new();
    let mut i: usize = 0;
    while i < v.len() && v[i].lt(&t)
        invariant
            i <= v@.len(),
            syms_sorted(v@),
            r@ == v@.subrange(0, i as int),
            forall|j: int| 0 <= j < i ==> symbol_lt(#[trigger] v@[j], t),
        decreases v@.len() - i,
    {
        r.push(v[i]);
        i = i + 1;
        assert(r@ =~= v@.subrange(0, i as int));
    }
    let pos = i;
    r.push(t);
    while i < v.len()
        invariant
            pos <= i <= v@.len(),
            syms_sorted(v@),
            r@ == v@.subrange(0, pos as int).push(t) + v@.subrange(pos as int, i as int),
            forall|j: int| 0 <= j < pos ==> symbol_lt(#[trigger] v@[j], t),
            pos < v@.len() ==> !symbol_lt(v@[pos as int], t),
        decreases v@.len() - i,
    {
        r.push(v[i]);
        i = i + 1;
        assert(r@ =~= v@.subrange(0, pos as int).push(t) + v@.subrange(pos as int, i as int));
    }
    proof {
        let rr = r@;
        assert(rr.len() == v@.len() + 1);
        assert forall|j: int| 0 <= j < rr.len() implies #[trigger] rr[j] == if j < pos {
            v@[j]
        } else if j == pos {
            t
        } else {
            v@[j - 1]
        } by {}
        if pos < v@.len() {
            assert(v@[pos as int] != t) by {
                assert(v@.contains(v@[pos as int]));
            }
            assert(symbol_lt(t, v@[pos as int]));
        }
        assert forall|a: int, b: int| 0 <= a < b < rr.len() implies symbol_lt(#[trigger] rr[a], #[trigger] rr[b]) by {
            if b < pos {
                assert(symbol_lt(v@[a], v@[b]));
            } else if b == pos {
                assert(symbol_lt(v@[a], t));
            } else if a < pos {
                assert(symbol_lt(v@[a], v@[b - 1]));
            } else if a == pos {
                if b - 1 > pos {
                    assert(symbol_lt(v@[pos as int], v@[b - 1]));
                }
            } else {
                assert(symbol_lt(v@[a - 1], v@[b - 1]));
            }
        }
        assert forall|x: Symbol| #[trigger] rr.contains(x) <==> (v@.contains(x) || x == t) by {
            if rr.contains(x) {
                let j = choose|j: int| 0 <= j < rr.len() && rr[j] == x;
                if j < pos {
                    assert(v@[j] == x);
                } else if j > pos {
                    assert(v@[j - 1] == x);
                }
            }
            if v@.contains(x) {
                let j = choose|j: int| 0 <= j < v@.len() && v@[j] == x;
                if j < pos {
                    assert(rr[j] == x);
                } else {
                    assert(rr[j + 1] == x);
                }
            }
            if x == t {
                assert(rr[pos as int] == x);
            }
        }
    }
    r
}

} // verus!
