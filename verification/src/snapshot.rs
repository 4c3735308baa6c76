//! Snapshot naming and selection: a snapshot's key is its key prefix, the
//! progress it captures in ASCII decimal, and the `.dat.gz` extension. The
//! initializer picks the best remote snapshot by parsing listed keys.

use vstd::prelude::*;

verus! {

/// The ASCII decimal digits of `n`, no leading zeros.
pub open spec fn dec_digits(n: u64) -> Seq<u8>
    decreases n,
{
    if n < 10 {
        seq![(0x30 + n) as u8]
    } else {
        dec_digits(n / 10) + seq![(0x30 + n % 10) as u8]
    }
}

/// Non-empty and all ASCII digits.
pub open spec fn is_digits(s: Seq<u8>) -> bool {
    s.len() > 0 && forall|i: int| 0 <= i < s.len() ==> 0x30 <= #[trigger] s[i] <= 0x39
}

/// The number an ASCII digit sequence denotes.
pub open spec fn digits_value(s: Seq<u8>) -> int
    decreases s.len(),
{
    if s.len() == 0 {
        0
    } else {
        digits_value(s.drop_last()) * 10 + (s.last() - 0x30)
    }
}

/// The decimal digits of `n` denote `n`.
pub proof fn lemma_dec_digits_value(n: u64)
    ensures
        is_digits(dec_digits(n)),
        digits_value(dec_digits(n)) == n,
    decreases n,
{
    if n < 10 {
        let s = dec_digits(n);
        assert(s.drop_last() =~= Seq::<u8>::empty());
        assert forall|i: int| 0 <= i < s.len() implies 0x30 <= #[trigger] s[i] <= 0x39 by {
            assert(s[i] == (0x30 + n) as u8);
        }
        assert(((0x30 + n) as u8) == 0x30 + n);
        assert(digits_value(Seq::<u8>::empty()) == 0);
        assert(s.last() == (0x30 + n) as u8);
        assert(digits_value(s) == digits_value(s.drop_last()) * 10 + (s.last() - 0x30));
    } else {
        lemma_dec_digits_value(n / 10);
        let s = dec_digits(n);
        let hd = dec_digits(n / 10);
        assert(s.drop_last() =~= hd);
        assert(s.last() == (0x30 + n % 10) as u8);
        assert forall|i: int| 0 <= i < s.len() implies 0x30 <= #[trigger] s[i] <= 0x39 by {
            if i < hd.len() {
                assert(s[i] == hd[i]);
            } else {
                assert(s[i] == (0x30 + n % 10) as u8);
            }
        }
        assert(((0x30 + n % 10) as u8) == 0x30 + n % 10);
        assert(s.len() == hd.len() + 1);
        assert(n == 10 * (n / 10) + n % 10) by {
            vstd::arithmetic::div_mod::lemma_fundamental_div_mod(n as int, 10);
        }
    }
}

/// Appending digits never shrinks the denoted number.
pub proof fn lemma_digits_value_prefix(s: Seq<u8>, n: int)
    requires
        0 <= n <= s.len(),
        forall|i: int| 0 <= i < s.len() ==> 0x30 <= #[trigger] s[i] <= 0x39,
    ensures
        digits_value(s.take(n)) <= digits_value(s),
    decreases s.len() - n,
{
    if n < s.len() {
        lemma_digits_value_prefix(s, n + 1);
        let t = s.take(n + 1);
        assert(t.drop_last() =~= s.take(n));
        assert(t.last() == s[n]);
        assert(digits_value(s.take(n)) <= digits_value(s.take(n)) * 10 + (s[n] - 0x30)) by {
            assert(digits_value(s.take(n)) >= 0) by {
                assert forall|i: int|
                    0 <= i < s.take(n).len() implies 0x30 <= #[trigger] s.take(n)[i] <= 0x39 by {
                    assert(s.take(n)[i] == s[i]);
                }
                lemma_digits_value_nonneg(s.take(n));
            }
        }
    } else {
        assert(s.take(n) =~= s);
    }
}

pub proof fn lemma_digits_value_nonneg(s: Seq<u8>)
    requires
        forall|i: int| 0 <= i < s.len() ==> 0x30 <= #[trigger] s[i] <= 0x39,
    ensures
        digits_value(s) >= 0,
    decreases s.len(),
{
    if s.len() > 0 {
        assert forall|i: int|
            0 <= i < s.drop_last().len() implies 0x30 <= #[trigger] s.drop_last()[i]
            <= 0x39 by {
            assert(s.drop_last()[i] == s[i]);
        }
        lemma_digits_value_nonneg(s.drop_last());
        assert(s.last() >= 0x30);
    }
}

/// Writes `n` in ASCII decimal.
pub fn u64_to_dec(n: u64) -> (r: Vec<u8>)
    ensures
        r@ == dec_digits(n),
    decreases n,
{
    if n < 10 {
        let mut out: Vec<u8> = Vec::new();
        out.push((0x30 + n) as u8);
        proof {
            assert(out@ =~= dec_digits(n));
        }
        out
    } else {
        let mut out = u64_to_dec(n / 10);
        out.push((0x30 + n % 10) as u8);
        proof {
            assert(out@ =~= dec_digits(n));
        }
        out
    }
}

/// Reads an ASCII decimal number; nothing on empty input, a non-digit, or
/// a value above `u64::MAX`.
#[verifier::loop_isolation(false)]
pub fn parse_dec(s: &Vec<u8>) -> (r: Option<u64>)
    ensures
        match r {
            Some(v) => is_digits(s@) && digits_value(s@) == v,
            None => !is_digits(s@) || digits_value(s@) > u64::MAX,
        },
{
    let n = s.len();
    if n == 0 {
        return None;
    }
    let mut acc: u64 = 0;
    let mut i: usize = 0;
    while i < n
        invariant
            0 <= i <= n,
            acc == digits_value(s@.take(i as int)),
            forall|t: int| 0 <= t < i ==> 0x30 <= #[trigger] s@[t] <= 0x39,
        decreases n - i,
    {
        let c = s[i];
        if c < 0x30 || c > 0x39 {
            return None;
        }
        let d: u64 = (c - 0x30) as u64;
        let wide: u128 = acc as u128 * 10 + d as u128;
        proof {
            let t = s@.take(i + 1);
            assert(t.drop_last() =~= s@.take(i as int));
            assert(t.last() == s@[i as int]);
        }
        if wide > 0xffff_ffff_ffff_ffff {
            proof {
                assert(digits_value(s@.take(i + 1)) > u64::MAX);
                if is_digits(s@) {
                    lemma_digits_value_prefix(s@, i + 1);
                    assert(digits_value(s@) > u64::MAX) by {
                        assert(s@.take(s@.len() as int) =~= s@);
                    }
                }
            }
            return None;
        }
        acc = wide as u64;
        i = i + 1;
    }
    proof {
        assert(s@.take(n as int) =~= s@);
    }
    Some(acc)
}

/// The bytes of the `.dat.gz` extension.
pub open spec fn dat_gz_bytes() -> Seq<u8> {
    seq![0x2eu8, 0x64u8, 0x61u8, 0x74u8, 0x2eu8, 0x67u8, 0x7au8]
}

fn dat_gz_suffix() -> (r: Vec<u8>)
    ensures
        r@ == dat_gz_bytes(),
{
    let mut out: Vec<u8> = Vec::new();
    out.push(0x2e);
    out.push(0x64);
    out.push(0x61);
    out.push(0x74);
    out.push(0x2e);
    out.push(0x67);
    out.push(0x7a);
    proof {
        assert(out@ =~= dat_gz_bytes());
    }
    out
}

/// The remote key of a snapshot: prefix, progress in decimal, extension.
pub open spec fn snapshot_key_spec(prefix: Seq<u8>, progress: u64) -> Seq<u8> {
    prefix + dec_digits(progress) + dat_gz_bytes()
}

/// Builds a snapshot's remote key.
#[verifier::loop_isolation(false)]
pub fn snapshot_key(prefix: &Vec<u8>, progress: u64) -> (r: Vec<u8>)
    ensures
        r@ == snapshot_key_spec(prefix@, progress),
{
    let mut out: Vec<u8> = Vec::new();
    let mut i: usize = 0;
    let n = prefix.len();
    while i < n
        invariant
            0 <= i <= n,
            out@ == prefix@.take(i as int),
        decreases n - i,
    {
        out.push(prefix[i]);
        proof {
            assert(out@ =~= prefix@.take(i + 1));
        }
        i = i + 1;
    }
    proof {
        assert(out@ =~= prefix@);
    }
    let mut digits = u64_to_dec(progress);
    out.append(&mut digits);
    let mut ext = dat_gz_suffix();
    out.append(&mut ext);
    proof {
        assert(out@ =~= snapshot_key_spec(prefix@, progress));
    }
    out
}

/// The progress a key denotes under a prefix: the key must be the prefix,
/// then decimal digits whose value fits a `u64`, then the extension.
pub open spec fn parse_key_spec(prefix: Seq<u8>, key: Seq<u8>) -> Option<u64> {
    let mid = key.subrange(prefix.len() as int, key.len() - dat_gz_bytes().len());
    if key.len() > prefix.len() + dat_gz_bytes().len() && key.take(prefix.len() as int) == prefix
        && key.skip(key.len() - dat_gz_bytes().len()) == dat_gz_bytes() && is_digits(mid)
        && digits_value(mid) <= u64::MAX {
        Some(digits_value(mid) as u64)
    } else {
        None
    }
}

/// Law: a built snapshot key parses back to the progress it was built from.
pub proof fn lemma_snapshot_key_round_trip(prefix: Seq<u8>, progress: u64)
    ensures
        parse_key_spec(prefix, snapshot_key_spec(prefix, progress)) == Some(progress),
{
    let key = snapshot_key_spec(prefix, progress);
    lemma_dec_digits_value(progress);
    assert(key.take(prefix.len() as int) =~= prefix);
    assert(key.skip(key.len() - dat_gz_bytes().len()) =~= dat_gz_bytes());
    assert(key.subrange(prefix.len() as int, key.len() - dat_gz_bytes().len()) =~= dec_digits(
        progress));
}

/// Compares a slice of a byte vector with another byte vector.
#[verifier::loop_isolation(false)]
fn bytes_eq_at(key: &Vec<u8>, from: usize, pat: &Vec<u8>) -> (r: bool)
    requires
        from + pat@.len() <= key@.len(),
    ensures
        r == (key@.subrange(from as int, from + pat@.len()) =~= pat@),
{
    let n = pat.len();
    let klen = key.len();
    let mut i: usize = 0;
    while i < n
        invariant
            0 <= i <= n,
            forall|t: int| 0 <= t < i ==> key@[from + t] == pat@[t],
        decreases n - i,
    {
        if key[from + i] != pat[i] {
            proof {
                assert(key@.subrange(from as int, from + pat@.len())[i as int] != pat@[i as int]);
            }
            return false;
        }
        i = i + 1;
    }
    proof {
        assert(key@.subrange(from as int, from + pat@.len()) =~= pat@);
    }
    true
}

/// Builds a database from local state and, when the remote store holds a
/// further-progressed snapshot, from that snapshot: `with_prefix` and
/// `with_path` configure it, `get_snapshot_progress` reads a listed key,
/// and `best_snapshot` picks the snapshot worth restoring.
pub struct DatabaseInitializer {
    pub prefix: Vec<u8>,
    pub path: String,
}

impl DatabaseInitializer {
    pub fn new() -> (r: DatabaseInitializer)
        ensures
            r.prefix@ == Seq::<u8>::empty(),
            r.path@ == Seq::<char>::empty(),
    {
        DatabaseInitializer { prefix: Vec::new(), path: String::new() }
    }

    pub fn with_prefix(self, prefix: Vec<u8>) -> (r: DatabaseInitializer)
        ensures
            r.prefix == prefix,
            r.path == self.path,
    {
        DatabaseInitializer { prefix, path: self.path }
    }

    pub fn with_path(self, path: String) -> (r: DatabaseInitializer)
        ensures
            r.prefix == self.prefix,
            r.path == path,
    {
        DatabaseInitializer { prefix: self.prefix, path }
    }

    /// The progress a listed key denotes, under this initializer's prefix;
    /// nothing on a malformed key, which the caller skips.
    #[verifier::loop_isolation(false)]
    pub fn get_snapshot_progress(&self, key: &Vec<u8>) -> (r: Option<u64>)
        ensures
            r == parse_key_spec(self.prefix@, key@),
    {
        let plen = self.prefix.len();
        let klen = key.len();
        if klen < plen || klen - plen < 8 {
            return None;
        }
        if !bytes_eq_at(key, 0, &self.prefix) {
            proof {
                assert(key@.subrange(0, plen as int) =~= key@.take(plen as int));
            }
            return None;
        }
        let ext = dat_gz_suffix();
        if !bytes_eq_at(key, klen - 7, &ext) {
            proof {
                assert(key@.subrange(klen - 7, klen as int) =~= key@.skip(klen - 7));
            }
            return None;
        }
        let mut mid: Vec<u8> = Vec::new();
        let mut i: usize = plen;
        while i < klen - 7
            invariant
                plen <= i <= klen - 7,
                mid@ == key@.subrange(plen as int, i as int),
            decreases klen - 7 - i,
        {
            mid.push(key[i]);
            proof {
                assert(mid@ =~= key@.subrange(plen as int, i + 1));
            }
            i = i + 1;
        }
        proof {
            assert(key@.subrange(0, plen as int) =~= key@.take(plen as int));
            assert(key@.subrange(klen - 7, klen as int) =~= key@.skip(klen - 7));
            assert(mid@ == key@.subrange(plen as int, klen - 7));
        }
        parse_dec(&mid)
    }

    /// The best snapshot worth restoring: a listed key whose progress is
    /// maximal among the parseable keys and exceeds the local progress.
    #[verifier::loop_isolation(false)]
    pub fn best_snapshot(&self, keys: &Vec<Vec<u8>>, local_progress: u64) -> (r: Option<
        (usize, u64),
    >)
        ensures
            match r {
                Some((i, p)) => {
                    &&& i < keys@.len()
                    &&& parse_key_spec(self.prefix@, keys@[i as int]@) == Some(p)
                    &&& p > local_progress
                    &&& forall|j: int|
                        0 <= j < keys@.len() ==> match parse_key_spec(
                            self.prefix@,
                            (#[trigger] keys@[j])@,
                        ) {
                            Some(q) => q <= p,
                            None => true,
                        }
                },
                None => forall|j: int|
                    0 <= j < keys@.len() ==> match parse_key_spec(
                        self.prefix@,
                        (#[trigger] keys@[j])@,
                    ) {
                        Some(q) => q <= local_progress,
                        None => true,
                    },
            },
    {
        let n = keys.len();
        let mut best: Option<(usize, u64)> = None;
        let mut i: usize = 0;
        while i < n
            invariant
                0 <= i <= n,
                match best {
                    Some((bi, bp)) => {
                        &&& bi < keys@.len()
                        &&& parse_key_spec(self.prefix@, keys@[bi as int]@) == Some(bp)
                        &&& bp > local_progress
                        &&& forall|j: int|
                            0 <= j < i ==> match parse_key_spec(
                                self.prefix@,
                                (#[trigger] keys@[j])@,
                            ) {
                                Some(q) => q <= bp,
                                None => true,
                            }
                    },
                    None => forall|j: int|
                        0 <= j < i ==> match parse_key_spec(
                            self.prefix@,
                            (#[trigger] keys@[j])@,
                        ) {
                            Some(q) => q <= local_progress,
                            None => true,
                        },
                },
            decreases n - i,
        {
            match self.get_snapshot_progress(&keys[i]) {
                Some(p) => {
                    match best {
                        Some((_, bp)) => {
                            if p > bp {
                                best = Some((i, p));
                            }
                        },
                        None => {
                            if p > local_progress {
                                best = Some((i, p));
                            }
                        },
                    }
                },
                None => {},
            }
            i = i + 1;
        }
        best
    }
}

} // verus!
