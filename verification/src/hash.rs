//! Content hashing for tracked files: SHA-256 over the file's bytes, with
//! CRLF line endings folded to LF for text files so that a Windows checkout and
//! a Unix checkout of the same tree hash alike. Binary files (a NUL byte among
//! the first 8000 bytes, git's own heuristic) are hashed byte for byte.
//!
//! The hasher is fed in chunks; a `\r` that ends one chunk is held back until
//! the next chunk shows whether a `\n` follows it, so the result does not
//! depend on where the chunk boundaries fall.
use vstd::prelude::*;
use sha2::Digest;

verus! {

/// Size of the chunks in which file contents are read and hashed.
pub const HASH_BUFFER_SIZE: usize = 65536;

/// Bytes inspected at the start of a file to decide whether it is binary.
pub const BINARY_PROBE_SIZE: usize = 8000;

/// The byte `\r`.
pub const CR: u8 = 13;

/// The byte `\n`.
pub const LF: u8 = 10;

// ---------------------------------------------------------------------------
// Specification
// ---------------------------------------------------------------------------

/// `s` with every `\r` that is immediately followed by `\n` removed. A lone
/// `\r` stays.
pub open spec fn crlf_normalized(s: Seq<u8>) -> Seq<u8>
    decreases s.len(),
{
    if s.len() == 0 {
        Seq::<u8>::empty()
    } else if s.len() >= 2 && s[0] == CR && s[1] == LF {
        crlf_normalized(s.drop_first())
    } else {
        seq![s[0]] + crlf_normalized(s.drop_first())
    }
}

/// Whether `probe` marks its file as binary: a NUL byte among its first
/// `BINARY_PROBE_SIZE` bytes.
pub open spec fn is_binary_probe(probe: Seq<u8>) -> bool {
    exists|i: int| 0 <= i < probe.len() && i < BINARY_PROBE_SIZE && probe[i] == 0u8
}

/// The bytes that go into the digest for a file of `content`.
pub open spec fn digest_input(binary: bool, content: Seq<u8>) -> Seq<u8> {
    if binary {
        content
    } else {
        crlf_normalized(content)
    }
}

/// The lower-case hexadecimal digit for a nibble.
pub open spec fn hex_digit(n: u8) -> char {
    if n < 10 {
        ((n + 48) as u8) as char
    } else {
        ((n + 87) as u8) as char
    }
}

/// Lower-case hexadecimal encoding, two digits per byte, high nibble first.
pub open spec fn lower_hex(data: Seq<u8>) -> Seq<char>
    decreases data.len(),
{
    if data.len() == 0 {
        Seq::<char>::empty()
    } else {
        seq![hex_digit(data[0] / 16), hex_digit(data[0] % 16)] + lower_hex(data.drop_first())
    }
}

/// The text `sha256:` followed by the lower-case hex of `digest`.
pub open spec fn digest_text(digest: Seq<u8>) -> Seq<char> {
    seq!['s', 'h', 'a', '2', '5', '6', ':'] + lower_hex(digest)
}

/// The hash recorded for a file whose bytes are `content` and whose first
/// bytes `probe` decide text or binary.
pub open spec fn content_hash(probe: Seq<u8>, content: Seq<u8>) -> Seq<char> {
    digest_text(sha256_digest(digest_input(is_binary_probe(probe), content)))
}

// ---------------------------------------------------------------------------
// Trusted items: sha2 and base16ct
// ---------------------------------------------------------------------------

/// The SHA-256 digest of a byte sequence, as sha2 computes it.
pub uninterp spec fn sha256_digest(data: Seq<u8>) -> Seq<u8>;

/// An incremental SHA-256 state of the sha2 crate (`sha2::Sha256`), held
/// opaque in a private field; what it has absorbed is `sha256_absorbed`.
#[verifier::external_body]
pub struct Sha256State {
    inner: sha2::Sha256,
}

/// The bytes absorbed so far by a SHA-256 state.
pub uninterp spec fn sha256_absorbed(h: Sha256State) -> Seq<u8>;

/// `sha2::Sha256::new`: a state that has absorbed nothing.
#[verifier::external_body]
fn sha256_new() -> (h: Sha256State)
    ensures
        sha256_absorbed(h) == Seq::<u8>::empty(),
{
    Sha256State { inner: sha2::Sha256::new() }
}

/// `Digest::update` on `sha2::Sha256`: appends `data` to what the state has
/// absorbed.
#[verifier::external_body]
fn sha256_update(h: &mut Sha256State, data: &[u8])
    ensures
        sha256_absorbed(*final(h)) == sha256_absorbed(*old(h)) + data@,
{
    h.inner.update(data);
}

/// `Digest::finalize` on `sha2::Sha256`: the 32-byte digest of everything the
/// state has absorbed.
#[verifier::external_body]
fn sha256_finalize(h: Sha256State) -> (d: Vec<u8>)
    ensures
        d@ == sha256_digest(sha256_absorbed(h)),
        d@.len() == 32,
{
    h.inner.finalize().to_vec()
}

/// `base16ct::lower::encode_string`: lower-case hex of `data`, high nibble
/// first. It panics when the input is longer than `usize::MAX / 2`.
#[verifier::external_body]
fn lower_hex_string(data: &[u8]) -> (s: String)
    requires
        data@.len() <= usize::MAX / 2,
    ensures
        s@ == lower_hex(data@),
{
    base16ct::lower::encode_string(data)
}

// ---------------------------------------------------------------------------
// Lemmas
// ---------------------------------------------------------------------------

/// Whether a `\r\n` pair starts at index `i` of `s`.
pub open spec fn crlf_pair_at(s: Seq<u8>, i: int) -> bool {
    s[i] == CR && s[i + 1] == LF
}

/// Normalization is compositional across any split point that does not fall
/// inside a `\r\n` pair.
pub proof fn lemma_normalized_concat(a: Seq<u8>, b: Seq<u8>)
    requires
        !(a.len() > 0 && a.last() == CR && b.len() > 0 && b[0] == LF),
    ensures
        crlf_normalized(a + b) == crlf_normalized(a) + crlf_normalized(b),
    decreases a.len(),
{
    if a.len() == 0 {
        assert(a + b =~= b);
        assert(crlf_normalized(a) =~= Seq::<u8>::empty());
        assert(Seq::<u8>::empty() + crlf_normalized(b) =~= crlf_normalized(b));
    } else {
        let rest = a.drop_first();
        assert((a + b).drop_first() =~= rest + b);
        lemma_normalized_concat(rest, b);
        if a.len() == 1 {
            assert(rest =~= Seq::<u8>::empty());
            assert((a + b)[0] == a.last());
            if b.len() > 0 {
                assert((a + b)[1] == b[0]);
            }
            assert(crlf_normalized(rest) =~= Seq::<u8>::empty());
            assert(crlf_normalized(a) =~= seq![a[0]] + crlf_normalized(rest));
            assert(crlf_normalized(a + b) =~= seq![a[0]] + crlf_normalized(rest + b));
            assert(crlf_normalized(a) + crlf_normalized(b) =~= seq![a[0]] + crlf_normalized(rest + b));
        } else {
            assert((a + b)[0] == a[0]);
            assert((a + b)[1] == a[1]);
            if a[0] == CR && a[1] == LF {
                assert(crlf_normalized(a + b) == crlf_normalized(rest + b));
            } else {
                assert(crlf_normalized(a + b) == seq![a[0]] + crlf_normalized(rest + b));
                assert(crlf_normalized(a) == seq![a[0]] + crlf_normalized(rest));
                assert(seq![a[0]] + (crlf_normalized(rest) + crlf_normalized(b)) =~= (seq![a[0]]
                    + crlf_normalized(rest)) + crlf_normalized(b));
            }
        }
    }
}

/// Splitting right after a `\r`: that `\r` survives exactly when the second
/// part does not start with `\n`.
pub proof fn lemma_normalized_concat_after_cr(a: Seq<u8>, b: Seq<u8>)
    requires
        a.len() > 0,
        a.last() == CR,
    ensures
        crlf_normalized(a + b) == crlf_normalized(a.drop_last()) + (if b.len() > 0 && b[0] == LF {
            Seq::<u8>::empty()
        } else {
            seq![CR]
        }) + crlf_normalized(b),
{
    let head = a.drop_last();
    assert(a =~= head + seq![CR]);
    assert(a + b =~= head + (seq![CR] + b));
    lemma_normalized_concat(head, seq![CR] + b);
    let tail = seq![CR] + b;
    assert(tail.drop_first() =~= b);
    if b.len() > 0 && b[0] == LF {
        assert(tail[1] == LF);
        assert(crlf_normalized(tail) == crlf_normalized(b));
        assert(crlf_normalized(head) + Seq::<u8>::empty() =~= crlf_normalized(head));
    } else {
        assert(crlf_normalized(tail) == seq![CR] + crlf_normalized(b));
        assert(crlf_normalized(head) + (seq![CR] + crlf_normalized(b)) =~= crlf_normalized(head)
            + seq![CR] + crlf_normalized(b));
    }
}

/// A text without any `\r\n` pair is left as it is: in particular a lone
/// `\r` survives normalization.
pub proof fn law_normalization_keeps_text_without_crlf(s: Seq<u8>)
    requires
        forall|i: int| 0 <= i < s.len() - 1 ==> !#[trigger] crlf_pair_at(s, i),
    ensures
        crlf_normalized(s) == s,
    decreases s.len(),
{
    if s.len() > 0 {
        let rest = s.drop_first();
        assert forall|i: int| 0 <= i < rest.len() - 1 implies !#[trigger] crlf_pair_at(rest, i) by {
            assert(rest[i] == s[i + 1] && rest[i + 1] == s[i + 2]);
            assert(!crlf_pair_at(s, i + 1));
        }
        law_normalization_keeps_text_without_crlf(rest);
        if s.len() >= 2 {
            assert(!crlf_pair_at(s, 0));
        }
        assert(seq![s[0]] + rest =~= s);
    }
}

/// Replacing every line ending `\n` by `\r\n` in a text that holds no `\r`
/// at all changes nothing about its hash input: a CRLF checkout and an LF
/// checkout of the same text normalize alike.
pub proof fn law_crlf_checkout_normalizes_to_lf(lines: Seq<Seq<u8>>)
    requires
        forall|i: int, j: int| 0 <= i < lines.len() && 0 <= j < lines[i].len() ==> lines[i][j]
            != CR && lines[i][j] != LF,
    ensures
        crlf_normalized(join_lines(lines, seq![CR, LF])) == join_lines(lines, seq![LF]),
    decreases lines.len(),
{
    if lines.len() > 0 {
        let first = lines[0];
        let rest = lines.drop_first();
        assert forall|i: int, j: int| 0 <= i < rest.len() && 0 <= j < rest[i].len() implies rest[i][j]
            != CR && rest[i][j] != LF by {
            assert(rest[i] == lines[i + 1]);
        }
        law_crlf_checkout_normalizes_to_lf(rest);
        assert forall|i: int| 0 <= i < first.len() - 1 implies !#[trigger] crlf_pair_at(first, i) by {
            assert(first[i] == lines[0][i]);
        }
        law_normalization_keeps_text_without_crlf(first);
        let crlf_rest = join_lines(rest, seq![CR, LF]);
        let piece = seq![CR, LF] + crlf_rest;
        assert(join_lines(lines, seq![CR, LF]) == first + piece);
        if first.len() > 0 {
            assert(first.last() == lines[0][first.len() - 1]);
        }
        lemma_normalized_concat(first, piece);
        assert(piece.drop_first().drop_first() =~= crlf_rest);
        assert(piece[0] == CR && piece[1] == LF);
        assert(crlf_normalized(piece) == crlf_normalized(piece.drop_first()));
        assert(piece.drop_first()[0] == LF);
        let p1 = piece.drop_first();
        assert(p1.len() < 2 || !(p1[0] == CR));
        assert(crlf_normalized(p1) == seq![LF] + crlf_normalized(p1.drop_first()));
        assert(join_lines(lines, seq![LF]) =~= first + (seq![LF] + join_lines(rest, seq![LF])));
    }
}

/// Lines each followed by `ending`.
pub open spec fn join_lines(lines: Seq<Seq<u8>>, ending: Seq<u8>) -> Seq<u8>
    decreases lines.len(),
{
    if lines.len() == 0 {
        Seq::<u8>::empty()
    } else {
        lines[0] + (ending + join_lines(lines.drop_first(), ending))
    }
}

// ---------------------------------------------------------------------------
// Executable code
// ---------------------------------------------------------------------------

/// Replace every `\r\n` pair with `\n`. Lone `\r` bytes (old Mac-style line
/// endings) are left untouched, matching git's own CRLF normalization.
pub fn normalize_crlf(chunk: &[u8]) -> (out: Vec<u8>)
    ensures
        out@ == crlf_normalized(chunk@),
{
    let mut out: Vec<u8> = Vec::new();
    let mut i: usize = 0;
    assert(chunk@.skip(0) =~= chunk@);
    while i < chunk.len()
        invariant
            i <= chunk@.len(),
            out@ + crlf_normalized(chunk@.skip(i as int)) == crlf_normalized(chunk@),
        decreases chunk.len() - i,
    {
        let ghost rest = chunk@.skip(i as int);
        assert(rest.drop_first() =~= chunk@.skip(i + 1));
        if chunk[i] == CR && i + 1 < chunk.len() && chunk[i + 1] == LF {
            assert(rest[0] == CR && rest[1] == LF);
            i = i + 1;
            continue;
        }
        assert(crlf_normalized(rest) == seq![rest[0]] + crlf_normalized(rest.drop_first()));
        let ghost before = out@;
        out.push(chunk[i]);
        assert(out@ + crlf_normalized(chunk@.skip(i + 1)) =~= before + (seq![rest[0]]
            + crlf_normalized(rest.drop_first())));
        i = i + 1;
    }
    assert(chunk@.skip(i as int) =~= Seq::<u8>::empty());
    assert(out@ + Seq::<u8>::empty() =~= out@);
    out
}

/// Whether the first bytes of a file mark it as binary (a NUL byte among the
/// first `BINARY_PROBE_SIZE` bytes).
pub fn is_binary(probe: &[u8]) -> (r: bool)
    ensures
        r == is_binary_probe(probe@),
{
    let limit = if probe.len() < BINARY_PROBE_SIZE {
        probe.len()
    } else {
        BINARY_PROBE_SIZE
    };
    let mut i: usize = 0;
    while i < limit
        invariant
            i <= limit <= probe@.len(),
            limit <= BINARY_PROBE_SIZE,
            limit == probe@.len() || limit == BINARY_PROBE_SIZE,
            forall|j: int| 0 <= j < i ==> probe@[j] != 0u8,
        decreases limit - i,
    {
        if probe[i] == 0 {
            return true;
        }
        i = i + 1;
    }
    false
}

/// The text recorded for a digest: `sha256:` followed by its lower-case hex.
pub fn format_digest(digest: &[u8]) -> (s: String)
    requires
        digest@.len() <= usize::MAX / 2,
    ensures
        s@ == digest_text(digest@),
{
    let mut s = String::new();
    push_prefix(&mut s);
    let hex = lower_hex_string(digest);
    s.append(hex.as_str());
    s
}

fn push_prefix(s: &mut String)
    requires
        old(s)@ == Seq::<char>::empty(),
    ensures
        final(s)@ == seq!['s', 'h', 'a', '2', '5', '6', ':'],
{
    crate::text::push_char(s, 's');
    crate::text::push_char(s, 'h');
    crate::text::push_char(s, 'a');
    crate::text::push_char(s, '2');
    crate::text::push_char(s, '5');
    crate::text::push_char(s, '6');
    crate::text::push_char(s, ':');
    assert(s@ =~= seq!['s', 'h', 'a', '2', '5', '6', ':']);
}

/// Streaming hasher for one file's contents.
pub struct ContentHasher {
    hasher: Sha256State,
    binary: bool,
    pending_cr: bool,
    fed: Ghost<Seq<u8>>,
}

impl ContentHasher {
    /// Whether the file is being hashed byte for byte.
    pub closed spec fn binary(&self) -> bool {
        self.binary
    }

    /// Everything fed so far, in order.
    pub closed spec fn fed(&self) -> Seq<u8> {
        self.fed@
    }

    /// The state's invariant: what the SHA-256 state has absorbed is the
    /// digest input of what was fed, short of a held-back trailing `\r`.
    pub closed spec fn wf(&self) -> bool {
        let absorbed = sha256_absorbed(self.hasher);
        let fed = self.fed@;
        if self.binary {
            &&& !self.pending_cr
            &&& absorbed == fed
        } else if self.pending_cr {
            &&& fed.len() > 0
            &&& fed.last() == CR
            &&& absorbed == crlf_normalized(fed.drop_last())
        } else {
            &&& fed.len() == 0 || fed.last() != CR
            &&& absorbed == crlf_normalized(fed)
        }
    }

    /// A hasher for a file whose first bytes are `probe`.
    pub fn new(probe: &[u8]) -> (h: Self)
        ensures
            h.wf(),
            h.binary() == is_binary_probe(probe@),
            h.fed() == Seq::<u8>::empty(),
    {
        let binary = is_binary(probe);
        let h = ContentHasher {
            hasher: sha256_new(),
            binary,
            pending_cr: false,
            fed: Ghost(Seq::<u8>::empty()),
        };
        proof {
            assert(crlf_normalized(Seq::<u8>::empty()) =~= Seq::<u8>::empty());
        }
        h
    }

    /// A hasher that hashes the file byte for byte, never folding line
    /// endings.
    pub fn new_raw() -> (h: Self)
        ensures
            h.wf(),
            h.binary(),
            h.fed() == Seq::<u8>::empty(),
    {
        ContentHasher {
            hasher: sha256_new(),
            binary: true,
            pending_cr: false,
            fed: Ghost(Seq::<u8>::empty()),
        }
    }

    /// Feed the next chunk of the file.
    pub fn update(&mut self, chunk: &[u8])
        requires
            old(self).wf(),
        ensures
            final(self).wf(),
            final(self).binary() == old(self).binary(),
            final(self).fed() == old(self).fed() + chunk@,
    {
        let ghost old_fed = self.fed@;
        if chunk.len() == 0 {
            proof {
                assert(old_fed + chunk@ =~= old_fed);
            }
            return;
        }
        if self.binary {
            sha256_update(&mut self.hasher, chunk);
            self.fed = Ghost(old_fed + chunk@);
            return;
        }
        let ghost pending_before = self.pending_cr;
        if self.pending_cr {
            if chunk[0] != LF {
                let cr: [u8; 1] = [CR];
                sha256_update(&mut self.hasher, &cr);
                proof {
                    assert(cr@ =~= seq![CR]);
                }
            }
            self.pending_cr = false;
        }
        // What has been absorbed now: the normalized form of everything fed so
        // far, with the held-back `\r` resolved against this chunk's head.
        let ghost absorbed_mid = sha256_absorbed(self.hasher);
        proof {
            if pending_before {
                lemma_normalized_concat_after_cr(old_fed, chunk@);
                assert(absorbed_mid == crlf_normalized(old_fed.drop_last()) + (if chunk@[0] == LF {
                    Seq::<u8>::empty()
                } else {
                    seq![CR]
                }));
                assert(crlf_normalized(old_fed + chunk@) == absorbed_mid + crlf_normalized(chunk@));
            } else {
                lemma_normalized_concat(old_fed, chunk@);
                assert(crlf_normalized(old_fed + chunk@) == absorbed_mid + crlf_normalized(chunk@));
            }
        }
        let n = chunk.len();
        let body: &[u8];
        if chunk[n - 1] == CR {
            self.pending_cr = true;
            body = vstd::slice::slice_subrange(chunk, 0, n - 1);
        } else {
            body = chunk;
        }
        let normalized = normalize_crlf(body);
        sha256_update(&mut self.hasher, normalized.as_slice());
        self.fed = Ghost(old_fed + chunk@);
        proof {
            let fed = old_fed + chunk@;
            if self.pending_cr {
                assert(body@ =~= chunk@.drop_last());
                assert(fed.drop_last() =~= old_fed + chunk@.drop_last());
                // The whole chunk ends in `\r`; split it off.
                if pending_before {
                    lemma_normalized_concat_after_cr(old_fed, chunk@.drop_last());
                    if chunk@.len() == 1 {
                        assert(chunk@.drop_last() =~= Seq::<u8>::empty());
                        assert(chunk@[0] == CR);
                    } else {
                        assert(chunk@.drop_last()[0] == chunk@[0]);
                    }
                } else {
                    lemma_normalized_concat(old_fed, chunk@.drop_last());
                }
                assert(sha256_absorbed(self.hasher) =~= absorbed_mid + crlf_normalized(
                    chunk@.drop_last(),
                ));
                assert(fed.last() == CR);
            } else {
                assert(body@ =~= chunk@);
                assert(sha256_absorbed(self.hasher) =~= absorbed_mid + crlf_normalized(chunk@));
                assert(fed.last() == chunk@.last());
            }
        }
    }

    /// The recorded hash of everything fed: `sha256:` and the hex digest.
    pub fn finish(self) -> (s: String)
        requires
            self.wf(),
        ensures
            s@ == digest_text(sha256_digest(digest_input(self.binary(), self.fed()))),
    {
        let mut hasher = self.hasher;
        if self.pending_cr {
            let cr: [u8; 1] = [CR];
            sha256_update(&mut hasher, &cr);
            proof {
                assert(cr@ =~= seq![CR]);
                lemma_normalized_concat_after_cr(self.fed@, Seq::<u8>::empty());
                assert(self.fed@ + Seq::<u8>::empty() =~= self.fed@);
                assert(crlf_normalized(Seq::<u8>::empty()) =~= Seq::<u8>::empty());
                assert(crlf_normalized(self.fed@.drop_last()) + seq![CR] + Seq::<u8>::empty()
                    =~= crlf_normalized(self.fed@.drop_last()) + seq![CR]);
            }
        }
        let digest = sha256_finalize(hasher);
        format_digest(digest.as_slice())
    }
}

/// The recorded hash of a file held in memory as `content`: its first bytes
/// decide text or binary, exactly as when the file is streamed.
pub fn hash_content(content: &[u8]) -> (s: String)
    ensures
        s@ == content_hash(content@, content@),
{
    let mut h = ContentHasher::new(content);
    h.update(content);
    proof {
        assert(Seq::<u8>::empty() + content@ =~= content@);
    }
    h.finish()
}

/// Law: a file is hashed as text, with every CRLF folded to LF, exactly when
/// its first 8000 bytes hold no NUL; otherwise its bytes are hashed as they
/// are. Bytes of any other value, UTF-8 sequences included, never make a
/// file binary.
pub proof fn law_text_unless_nul_in_first_8000_bytes(probe: Seq<u8>, content: Seq<u8>)
    ensures
        (forall|i: int| 0 <= i < probe.len() && i < 8000 ==> #[trigger] probe[i] != 0u8) ==> content_hash(probe, content)
            == digest_text(sha256_digest(crlf_normalized(content))),
        (exists|i: int| 0 <= i < probe.len() && i < 8000 && #[trigger] probe[i] == 0u8) ==> content_hash(probe, content)
            == digest_text(sha256_digest(content)),
{
}

} // verus!
