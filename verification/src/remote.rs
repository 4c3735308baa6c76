//! The remote blob store model and the content codecs of its two backends:
//! an object store holding gzip blobs under keys, and a contents API that
//! carries gzip blobs as base64 text.

use crate::codec::{b64_decode, b64_decode_of, b64_encode, gunzip_of, gzip_compress,
    gzip_decompress};
use crate::errors::SyncError;
use crate::state_tables::{assoc_map, assoc_unique, lemma_assoc_map_contains, lemma_assoc_map_get,
    lemma_assoc_map_push, lemma_assoc_map_remove, lemma_unique_push, lemma_unique_remove_then_push};
use vstd::prelude::*;

verus! {

/// `p` is a prefix of `k`.
pub open spec fn bytes_prefix_of(p: Seq<u8>, k: Seq<u8>) -> bool {
    p.len() <= k.len() && k.take(p.len() as int) == p
}

/// `s` is a suffix of `k`.
pub open spec fn bytes_suffix_of(s: Seq<u8>, k: Seq<u8>) -> bool {
    s.len() <= k.len() && k.skip(k.len() - s.len()) == s
}

fn bytes_starts_with(k: &Vec<u8>, p: &Vec<u8>) -> (r: bool)
    ensures
        r == bytes_prefix_of(p@, k@),
{
    let plen = p.len();
    if k.len() < plen {
        return false;
    }
    let mut i: usize = 0;
    while i < plen
        invariant
            0 <= i <= plen,
            plen == p@.len() <= k@.len(),
            forall|t: int| 0 <= t < i ==> k@[t] == p@[t],
        decreases plen - i,
    {
        if k[i] != p[i] {
            proof {
                assert(k@.take(plen as int)[i as int] != p@[i as int]);
            }
            return false;
        }
        i = i + 1;
    }
    proof {
        assert(k@.take(plen as int) =~= p@);
    }
    true
}

/// Whether a stored key ends with a snapshot key.
pub fn key_ends_with(k: &Vec<u8>, s: &Vec<u8>) -> (r: bool)
    ensures
        r == bytes_suffix_of(s@, k@),
{
    let slen = s.len();
    let klen = k.len();
    if klen < slen {
        return false;
    }
    let from = klen - slen;
    let mut i: usize = 0;
    while i < slen
        invariant
            0 <= i <= slen,
            slen == s@.len() <= k@.len() == klen,
            from == klen - slen,
            forall|t: int| 0 <= t < i ==> k@[from + t] == s@[t],
        decreases slen - i,
    {
        if k[from + i] != s[i] {
            proof {
                assert(k@.skip(from as int)[i as int] != s@[i as int]);
            }
            return false;
        }
        i = i + 1;
    }
    proof {
        assert(k@.skip(from as int) =~= s@);
    }
    true
}

/// The keys of an entry sequence that carry a prefix, in order.
pub open spec fn keys_with_prefix(s: Seq<Seq<u8>>, prefix: Seq<u8>) -> Seq<Seq<u8>>
    decreases s.len(),
{
    if s.len() == 0 {
        Seq::empty()
    } else if bytes_prefix_of(prefix, s[0]) {
        seq![s[0]] + keys_with_prefix(s.drop_first(), prefix)
    } else {
        keys_with_prefix(s.drop_first(), prefix)
    }
}

/// The object-store model: gzip blobs under byte keys. `save` compresses
/// and stores, `retrieve` fetches and decompresses, `list` walks a prefix,
/// `delete` is idempotent.
pub struct RemoteStore {
    objects: Vec<(Vec<u8>, Vec<u8>)>,
}

impl RemoteStore {
    pub closed spec fn entries_view(&self) -> Seq<(Seq<u8>, Seq<u8>)> {
        self.objects@.map_values(|e: (Vec<u8>, Vec<u8>)| (e.0@, e.1@))
    }

    /// Key to stored (compressed) blob.
    pub open spec fn view(&self) -> Map<Seq<u8>, Seq<u8>> {
        assoc_map(self.entries_view())
    }

    pub open spec fn wf(&self) -> bool {
        assoc_unique(self.entries_view())
    }

    pub fn new() -> (r: RemoteStore)
        ensures
            r.wf(),
            r@ == Map::<Seq<u8>, Seq<u8>>::empty(),
    {
        proof {
            assert(Seq::<(Vec<u8>, Vec<u8>)>::empty().map_values(
                |e: (Vec<u8>, Vec<u8>)| (e.0@, e.1@)) =~= Seq::<(Seq<u8>, Seq<u8>)>::empty());
            assert(assoc_map(Seq::<(Seq<u8>, Seq<u8>)>::empty()) =~= Map::<
                Seq<u8>,
                Seq<u8>,
            >::empty());
        }
        RemoteStore { objects: Vec::new() }
    }

    #[verifier::loop_isolation(false)]
    fn find(&self, key: &Vec<u8>) -> (r: Option<usize>)
        ensures
            match r {
                Some(i) => 0 <= i < self.entries_view().len() && self.entries_view()[i as int].0
                    == key@,
                None => forall|i: int|
                    0 <= i < self.entries_view().len() ==> (#[trigger] self.entries_view()[i]).0
                        != key@,
            },
    {
        let n = self.objects.len();
        let mut i: usize = 0;
        while i < n
            invariant
                0 <= i <= n,
                n == self.entries_view().len(),
                forall|j: int| 0 <= j < i ==> (#[trigger] self.entries_view()[j]).0 != key@,
            decreases n - i,
        {
            if bytes_eq(&self.objects[i].0, key) {
                return Some(i);
            }
            i = i + 1;
        }
        None
    }

    /// Compresses the content and stores it under the key, replacing any
    /// prior blob there; saving always succeeds.
    pub fn save(&mut self, key: &Vec<u8>, content: &Vec<u8>) -> (r: Result<(), SyncError>)
        requires
            old(self).wf(),
        ensures
            final(self).wf(),
            r is Ok,
            final(self)@.contains_key(key@),
            gunzip_of(final(self)@[key@]) == Some(content@),
            forall|k2: Seq<u8>|
                k2 != key@ ==> #[trigger] final(self)@.contains_key(k2) == old(
                    self,
                )@.contains_key(k2) && (old(self)@.contains_key(k2) ==> final(self)@[k2] == old(
                    self,
                )@[k2]),
    {
        let ghost s0 = self.entries_view();
        let compressed = match gzip_compress(content) {
            Ok(z) => z,
            Err(e) => {
                return Err(e);
            },
        };
        let ghost zv = compressed@;
        match self.find(key) {
            Some(i) => {
                proof {
                    lemma_assoc_map_remove(s0, i as int);
                }
                let _ = self.objects.remove(i);
                proof {
                    assert(self.entries_view() =~= s0.remove(i as int));
                }
                self.objects.push((clone_bytes(key), compressed));
                proof {
                    assert(self.entries_view() =~= s0.remove(i as int).push((key@, zv)));
                    lemma_assoc_map_push(s0.remove(i as int), key@, zv);
                    lemma_unique_remove_then_push(s0, i as int, zv);
                    assert(self@ =~= assoc_map(s0).insert(key@, zv));
                }
            },
            None => {
                self.objects.push((clone_bytes(key), compressed));
                proof {
                    assert(self.entries_view() =~= s0.push((key@, zv)));
                    lemma_assoc_map_push(s0, key@, zv);
                    lemma_unique_push(s0, key@, zv);
                }
            },
        }
        proof {
            assert(self@.contains_key(key@));
            assert(self@[key@] == zv);
        }
        Ok(())
    }

    /// Fetches the blob under the key and decompresses it; no blob is no
    /// error, a blob that does not decompress is one.
    pub fn retrieve(&self, key: &Vec<u8>) -> (r: Result<Option<Vec<u8>>, SyncError>)
        requires
            self.wf(),
        ensures
            match r {
                Ok(Some(d)) => self@.contains_key(key@) && gunzip_of(self@[key@]) == Some(d@),
                Ok(None) => !self@.contains_key(key@),
                Err(_) => self@.contains_key(key@) && gunzip_of(self@[key@]) is None,
            },
    {
        proof {
            lemma_assoc_map_contains(self.entries_view(), key@);
        }
        match self.find(key) {
            Some(i) => {
                proof {
                    lemma_assoc_map_get(self.entries_view(), i as int);
                }
                match gzip_decompress(&self.objects[i].1) {
                    Ok(d) => Ok(Some(d)),
                    Err(e) => Err(e),
                }
            },
            None => Ok(None),
        }
    }

    /// The stored keys under a prefix, in store order.
    #[verifier::loop_isolation(false)]
    pub fn list(&self, prefix: &Vec<u8>) -> (r: Vec<Vec<u8>>)
        ensures
            r@.map_values(|k: Vec<u8>| k@) == keys_with_prefix(
                self.entries_view().map_values(|e: (Seq<u8>, Seq<u8>)| e.0),
                prefix@,
            ),
    {
        let ghost all = self.entries_view().map_values(|e: (Seq<u8>, Seq<u8>)| e.0);
        let n = self.objects.len();
        let mut out: Vec<Vec<u8>> = Vec::new();
        let mut i: usize = 0;
        proof {
            assert(out@.map_values(|k: Vec<u8>| k@) =~= keys_with_prefix(
                all.take(0),
                prefix@,
            ));
        }
        while i < n
            invariant
                0 <= i <= n,
                n == all.len(),
                out@.map_values(|k: Vec<u8>| k@) == keys_with_prefix(all.take(i as int), prefix@),
            decreases n - i,
        {
            proof {
                lemma_keys_with_prefix_take(all, prefix@, i as int);
                assert(all[i as int] == self.entries_view()[i as int].0);
            }
            if bytes_starts_with(&self.objects[i].0, prefix) {
                out.push(clone_bytes(&self.objects[i].0));
                proof {
                    assert(out@.map_values(|k: Vec<u8>| k@) =~= keys_with_prefix(
                        all.take(i + 1),
                        prefix@,
                    ));
                }
            } else {
                proof {
                    assert(out@.map_values(|k: Vec<u8>| k@) =~= keys_with_prefix(
                        all.take(i + 1),
                        prefix@,
                    ));
                }
            }
            i = i + 1;
        }
        proof {
            assert(all.take(n as int) =~= all);
        }
        out
    }

    /// Removes the blob under the key; removing an absent key is success.
    pub fn delete(&mut self, key: &Vec<u8>)
        requires
            old(self).wf(),
        ensures
            final(self).wf(),
            final(self)@ == old(self)@.remove(key@),
    {
        let ghost s0 = self.entries_view();
        match self.find(key) {
            Some(i) => {
                proof {
                    lemma_assoc_map_remove(s0, i as int);
                }
                let _ = self.objects.remove(i);
                proof {
                    assert(self.entries_view() =~= s0.remove(i as int));
                }
            },
            None => {
                proof {
                    lemma_assoc_map_contains(s0, key@);
                    assert(assoc_map(s0) =~= assoc_map(s0).remove(key@));
                }
            },
        }
    }
}

/// A step of `keys_with_prefix` along a prefix of the key sequence.
proof fn lemma_keys_with_prefix_take(s: Seq<Seq<u8>>, prefix: Seq<u8>, i: int)
    requires
        0 <= i < s.len(),
    ensures
        bytes_prefix_of(prefix, s[i]) ==> keys_with_prefix(s.take(i + 1), prefix)
            == keys_with_prefix(s.take(i), prefix) + seq![s[i]],
        !bytes_prefix_of(prefix, s[i]) ==> keys_with_prefix(s.take(i + 1), prefix)
            == keys_with_prefix(s.take(i), prefix),
    decreases i,
{
    if i == 0 {
        assert(s.take(1).drop_first() =~= s.take(0));
        assert(s.take(0) =~= Seq::<Seq<u8>>::empty());
        if bytes_prefix_of(prefix, s[0]) {
            assert(keys_with_prefix(s.take(1), prefix) =~= seq![s[0]]);
        }
    } else {
        lemma_keys_with_prefix_take(s.drop_first(), prefix, i - 1);
        assert(s.take(i + 1).drop_first() =~= s.drop_first().take(i));
        assert(s.take(i).drop_first() =~= s.drop_first().take(i - 1));
        assert(s.drop_first()[i - 1] == s[i]);
        if bytes_prefix_of(prefix, s.take(i + 1)[0]) {
            assert(keys_with_prefix(s.take(i + 1), prefix) == seq![s[0]] + keys_with_prefix(
                s.drop_first().take(i),
                prefix,
            ));
            assert(keys_with_prefix(s.take(i), prefix) == seq![s[0]] + keys_with_prefix(
                s.drop_first().take(i - 1),
                prefix,
            ));
            if bytes_prefix_of(prefix, s[i]) {
                assert(keys_with_prefix(s.take(i + 1), prefix) =~= keys_with_prefix(
                    s.take(i),
                    prefix,
                ) + seq![s[i]]);
            }
        } else {
            assert(keys_with_prefix(s.take(i + 1), prefix) == keys_with_prefix(
                s.drop_first().take(i),
                prefix,
            ));
            assert(keys_with_prefix(s.take(i), prefix) == keys_with_prefix(
                s.drop_first().take(i - 1),
                prefix,
            ));
            if bytes_prefix_of(prefix, s[i]) {
                assert(keys_with_prefix(s.take(i + 1), prefix) =~= keys_with_prefix(
                    s.take(i),
                    prefix,
                ) + seq![s[i]]);
            }
        }
    }
}

/// A byte-for-byte copy.
fn clone_bytes(b: &Vec<u8>) -> (r: Vec<u8>)
    ensures
        r@ == b@,
{
    let n = b.len();
    let mut out: Vec<u8> = Vec::new();
    let mut i: usize = 0;
    while i < n
        invariant
            0 <= i <= n,
            n == b@.len(),
            out@ == b@.take(i as int),
        decreases n - i,
    {
        out.push(b[i]);
        proof {
            assert(out@ =~= b@.take(i + 1));
        }
        i = i + 1;
    }
    proof {
        assert(out@ =~= b@);
    }
    out
}

/// Byte-vector equality.
fn bytes_eq(a: &Vec<u8>, b: &Vec<u8>) -> (r: bool)
    ensures
        r == (a@ == b@),
{
    let n = a.len();
    if b.len() != n {
        proof {
            assert(a@ != b@);
        }
        return false;
    }
    let mut i: usize = 0;
    while i < n
        invariant
            0 <= i <= n,
            n == a@.len() == b@.len(),
            forall|t: int| 0 <= t < i ==> a@[t] == b@[t],
        decreases n - i,
    {
        if a[i] != b[i] {
            return false;
        }
        i = i + 1;
    }
    proof {
        assert(a@ =~= b@);
    }
    true
}

/// Law: a blob saved into the store and retrieved again is the blob that
/// was saved — the stored image decompresses back to it, byte for byte.
pub proof fn lemma_snapshot_round_trip(
    before: Map<Seq<u8>, Seq<u8>>,
    after: Map<Seq<u8>, Seq<u8>>,
    key: Seq<u8>,
    content: Seq<u8>,
    retrieved: Seq<u8>,
)
    requires
        after.contains_key(key),
        gunzip_of(after[key]) == Some(content),
        gunzip_of(after[key]) == Some(retrieved),
    ensures
        retrieved == content,
{
}

/// What decoding base64 text lines and joining the bytes yields.
pub open spec fn b64_lines_decoded(lines: Seq<Seq<char>>) -> Option<Seq<u8>>
    decreases lines.len(),
{
    if lines.len() == 0 {
        Some(Seq::empty())
    } else {
        match b64_decode_of(lines[0]) {
            Some(head) => match b64_lines_decoded(lines.drop_first()) {
                Some(tail) => Some(head + tail),
                None => None,
            },
            None => None,
        }
    }
}

/// Compresses a blob and encodes it as one base64 line, the form the
/// contents API carries file bodies in; encoding always succeeds.
pub fn encode_blob(content: &Vec<u8>) -> (r: Result<String, SyncError>)
    ensures
        r is Ok,
        r matches Ok(s) ==> exists|z: Seq<u8>|
            #[trigger] b64_decode_of(s@) == Some(z) && gunzip_of(z) == Some(content@),
{
    let compressed = match gzip_compress(content) {
        Ok(z) => z,
        Err(e) => {
            return Err(e);
        },
    };
    let encoded = b64_encode(&compressed);
    proof {
        assert(b64_decode_of(encoded@) == Some(compressed@) && gunzip_of(compressed@) == Some(
            content@,
        ));
    }
    Ok(encoded)
}

/// Decodes base64 text lines, joins the bytes and decompresses them, the
/// way a file body fetched from the contents API is read back.
#[verifier::loop_isolation(false)]
pub fn decode_blob(lines: &Vec<String>) -> (r: Result<Vec<u8>, SyncError>)
    ensures
        match r {
            Ok(d) => {
                &&& b64_lines_decoded(lines@.map_values(|l: String| l@)) matches Some(z)
                &&& gunzip_of(b64_lines_decoded(lines@.map_values(|l: String| l@))->Some_0)
                    == Some(d@)
            },
            Err(_) => b64_lines_decoded(lines@.map_values(|l: String| l@)) is None || gunzip_of(
                b64_lines_decoded(lines@.map_values(|l: String| l@))->Some_0,
            ) is None,
        },
{
    let ghost lv = lines@.map_values(|l: String| l@);
    let n = lines.len();
    let mut joined: Vec<u8> = Vec::new();
    let mut i: usize = 0;
    proof {
        assert(lv.skip(0) =~= lv);
    }
    while i < n
        invariant
            0 <= i <= n,
            n == lv.len(),
            match b64_lines_decoded(lv) {
                Some(all) => b64_lines_decoded(lv.skip(i as int)) matches Some(rest) && all
                    == joined@ + rest,
                None => b64_lines_decoded(lv.skip(i as int)) is None,
            },
        decreases n - i,
    {
        proof {
            assert(lv.skip(i as int)[0] == lv[i as int]);
            assert(lv.skip(i as int).drop_first() =~= lv.skip(i + 1));
        }
        let decoded = match b64_decode(lines[i].as_str()) {
            Ok(d) => d,
            Err(e) => {
                return Err(e);
            },
        };
        let ghost dv = decoded@;
        let mut decoded = decoded;
        joined.append(&mut decoded);
        proof {
            match b64_lines_decoded(lv) {
                Some(all) => {
                    assert(b64_lines_decoded(lv.skip(i as int)) == Some(
                        dv + b64_lines_decoded(lv.skip(i + 1))->Some_0,
                    ));
                    assert(all =~= joined@ + b64_lines_decoded(lv.skip(i + 1))->Some_0);
                },
                None => {},
            }
        }
        i = i + 1;
    }
    proof {
        assert(lv.skip(n as int) =~= Seq::<Seq<char>>::empty());
        assert(b64_lines_decoded(Seq::<Seq<char>>::empty()) == Some(Seq::<u8>::empty()));
        match b64_lines_decoded(lv) {
            Some(all) => {
                assert(all =~= joined@);
            },
            None => {},
        }
    }
    gzip_decompress(&joined)
}

/// A committing author of the contents API.
pub struct Committer {
    pub name: String,
    pub email: String,
}

/// A write request to the contents API: a message, an author, and for a
/// save the base64 content, for a delete the blob id to remove.
pub struct ContentRequest {
    pub message: String,
    pub committer: Committer,
    pub content: Option<String>,
    pub sha: Option<String>,
}

/// One entry a contents listing returns.
pub struct ContentInfo {
    pub name: String,
    /// The entry's path, as ASCII bytes.
    pub path: Vec<u8>,
    pub ty: String,
    pub content: Option<String>,
    pub sha: String,
    pub download_url: String,
}

/// The contents-API store's configuration.
pub struct GithubStoreConfig {
    pub owner: String,
    pub repository: String,
    pub token: String,
    pub agent: Option<String>,
    pub name: String,
    pub email: String,
}

/// The indices of the listed entries that are headers snapshots: their
/// paths carry the headers prefix and the snapshot extension.
#[verifier::loop_isolation(false)]
pub fn list_headers_snapshots(entries: &Vec<ContentInfo>) -> (r: Vec<usize>)
    ensures
        forall|t: int|
            0 <= t < r@.len() ==> (#[trigger] r@[t]) < entries@.len() && bytes_prefix_of(
                headers_prefix_bytes(),
                entries@[r@[t] as int].path@,
            ) && bytes_suffix_of(crate::snapshot::dat_gz_bytes(), entries@[r@[t] as int].path@),
        forall|j: int|
            0 <= j < entries@.len() && bytes_prefix_of(
                headers_prefix_bytes(),
                (#[trigger] entries@[j]).path@,
            ) && bytes_suffix_of(crate::snapshot::dat_gz_bytes(), entries@[j].path@) ==> r@
                .contains(j as usize),
{
    let prefix = headers_prefix();
    let mut ext: Vec<u8> = Vec::new();
    ext.push(0x2e);
    ext.push(0x64);
    ext.push(0x61);
    ext.push(0x74);
    ext.push(0x2e);
    ext.push(0x67);
    ext.push(0x7a);
    proof {
        assert(ext@ =~= crate::snapshot::dat_gz_bytes());
    }
    let n = entries.len();
    let mut out: Vec<usize> = Vec::new();
    let mut i: usize = 0;
    while i < n
        invariant
            0 <= i <= n,
            forall|t: int|
                0 <= t < out@.len() ==> (#[trigger] out@[t]) < i && bytes_prefix_of(
                    headers_prefix_bytes(),
                    entries@[out@[t] as int].path@,
                ) && bytes_suffix_of(crate::snapshot::dat_gz_bytes(), entries@[out@[t] as int].path@),
            forall|j: int|
                0 <= j < i && bytes_prefix_of(
                    headers_prefix_bytes(),
                    (#[trigger] entries@[j]).path@,
                ) && bytes_suffix_of(crate::snapshot::dat_gz_bytes(), entries@[j].path@) ==> out@
                    .contains(j as usize),
        decreases n - i,
    {
        let ghost out0 = out@;
        if bytes_starts_with(&entries[i].path, &prefix) && key_ends_with(&entries[i].path, &ext) {
            out.push(i);
            proof {
                assert(forall|t: int| 0 <= t < out0.len() ==> #[trigger] out@[t] == out0[t]);
                assert(out@[out@.len() - 1] == i);
                assert forall|j: int|
                    0 <= j < i + 1 && bytes_prefix_of(
                        headers_prefix_bytes(),
                        (#[trigger] entries@[j]).path@,
                    ) && bytes_suffix_of(
                        crate::snapshot::dat_gz_bytes(),
                        entries@[j].path@,
                    ) implies out@.contains(j as usize) by {
                    if j < i {
                        assert(out0.contains(j as usize));
                        let w = choose|w: int| 0 <= w < out0.len() && out0[w] == j as usize;
                        assert(out@[w] == j as usize);
                    } else {
                        assert(out@[out@.len() - 1] == j as usize);
                    }
                }
            }
        }
        i = i + 1;
    }
    out
}

/// The key prefix of headers snapshots.
pub open spec fn headers_prefix_bytes() -> Seq<u8> {
    seq![0x68u8, 0x65u8, 0x61u8, 0x64u8, 0x65u8, 0x72u8, 0x73u8, 0x2du8]
}

/// Builds the headers snapshot prefix, the ASCII of `headers-`.
pub fn headers_prefix() -> (r: Vec<u8>)
    ensures
        r@ == headers_prefix_bytes(),
{
    let mut out: Vec<u8> = Vec::new();
    out.push(0x68);
    out.push(0x65);
    out.push(0x61);
    out.push(0x64);
    out.push(0x65);
    out.push(0x72);
    out.push(0x73);
    out.push(0x2d);
    proof {
        assert(out@ =~= headers_prefix_bytes());
    }
    out
}

} // verus!
