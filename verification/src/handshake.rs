use vstd::prelude::*;
use vstd::string::StringExecFns;
use vstd::string::StringSliceAdditionalSpecFns;
use crate::error::HandshakeError;
use crate::error::WrtcError;
use crate::id::Id;
use crate::identity::identity_of;
use crate::identity::p256_signature_of;
use crate::identity::p256_verifies;
use crate::identity::Identity;
use crate::protocol::HandshakeRequest;

verus! {

/// The bytes before the fingerprint of a certificate in a session
/// description.
pub open spec fn fingerprint_prefix() -> Seq<u8> {
    "\na=fingerprint:".spec_bytes()
}

/// Whether `pattern` stands in `s` at index `i`.
pub open spec fn stands_at(s: Seq<u8>, pattern: Seq<u8>, i: int) -> bool {
    &&& 0 <= i
    &&& i + pattern.len() <= s.len()
    &&& s.subrange(i, i + pattern.len()) == pattern
}

/// The first index from `i` on at which `pattern` stands in `s`, or the
/// length of `s` if there is none.
pub open spec fn first_from(s: Seq<u8>, pattern: Seq<u8>, i: nat) -> int
    decreases s.len() + 1 - i,
{
    if i + pattern.len() > s.len() {
        s.len() as int
    } else if stands_at(s, pattern, i as int) {
        i as int
    } else {
        first_from(s, pattern, i + 1)
    }
}

/// The index of the first `byte` in `s`, or the length of `s` if there is
/// none.
pub open spec fn first_byte(s: Seq<u8>, byte: u8) -> int
    decreases s.len(),
{
    if s.len() == 0 {
        0
    } else if s[0] == byte {
        0
    } else {
        1 + first_byte(s.drop_first(), byte)
    }
}

/// The fingerprint that a session description gives for its certificate:
/// what stands on the line of the fingerprint behind the name of the hash
/// and the space that follows that name. None if the description has no
/// such line.
pub open spec fn fingerprint_of(sdp: Seq<u8>) -> Option<Seq<u8>> {
    let at = first_from(sdp, fingerprint_prefix(), 0);
    if at + fingerprint_prefix().len() > sdp.len() {
        None
    } else {
        let rest = sdp.skip(at + fingerprint_prefix().len());
        let line = rest.take(first_byte(rest, 13));
        let space = first_byte(line, 32);
        Some(
            if space < line.len() {
                line.skip(space + 1)
            } else {
                line
            },
        )
    }
}

proof fn lemma_first_byte(s: Seq<u8>, byte: u8, i: int)
    requires
        0 <= i <= s.len(),
        forall|j: int| 0 <= j < i ==> s[j] != byte,
        i < s.len() ==> s[i] == byte,
    ensures
        first_byte(s, byte) == i,
    decreases s.len(),
{
    if i > 0 {
        assert(s[0] != byte);
        lemma_first_byte(s.drop_first(), byte, i - 1);
    }
}

proof fn lemma_first_from(s: Seq<u8>, pattern: Seq<u8>, from: nat, i: nat)
    requires
        from <= i,
        forall|j: int| from <= j < i ==> !stands_at(s, pattern, j),
        i + pattern.len() <= s.len() ==> stands_at(s, pattern, i as int),
    ensures
        first_from(s, pattern, from) == if i + pattern.len() <= s.len() {
            i as int
        } else {
            s.len() as int
        },
    decreases i - from,
{
    if from < i {
        lemma_first_from(s, pattern, from + 1, i);
    }
}

fn find_byte(s: &[u8], from: usize, to: usize, byte: u8) -> (r: usize)
    requires
        from <= to <= s@.len(),
    ensures
        from <= r <= to,
        r - from == first_byte(s@.subrange(from as int, to as int), byte),
{
    let mut i: usize = from;
    while i < to && s[i] != byte
        invariant
            from <= i <= to <= s@.len(),
            forall|j: int| from <= j < i ==> s@[j] != byte,
        decreases to - i,
    {
        i += 1;
    }
    proof {
        lemma_first_byte(s@.subrange(from as int, to as int), byte, i - from);
    }
    i
}

/// Reads the fingerprint of the certificate out of a session description.
pub fn desc_to_fingerprint(sdp: &[u8]) -> (r: Option<Vec<u8>>)
    ensures
        r is Some <==> fingerprint_of(sdp@) is Some,
        r matches Some(found) ==> found@ == fingerprint_of(sdp@).unwrap(),
{
    let prefix = "\na=fingerprint:".as_bytes();
    let n = sdp.len();
    let m = prefix.len();
    if m > n {
        proof {
            lemma_first_from(sdp@, prefix@, 0, 0);
        }
        return None;
    }
    let mut at: usize = 0;
    let mut found = false;
    while at <= n - m
        invariant_except_break
            !found,
        invariant
            m <= n,
            n == sdp@.len(),
            m == prefix@.len(),
            at <= n,
            forall|j: int| 0 <= j < at ==> !stands_at(sdp@, prefix@, j),
        ensures
            at <= n,
            forall|j: int| 0 <= j < at ==> !stands_at(sdp@, prefix@, j),
            found ==> stands_at(sdp@, prefix@, at as int),
            !found ==> at + m > n,
        decreases n - at,
    {
        let mut j: usize = 0;
        while j < m && sdp[at + j] == prefix[j]
            invariant
                j <= m,
                at + m <= n,
                n == sdp@.len(),
                m == prefix@.len(),
                forall|w: int| 0 <= w < j ==> sdp@[at + w] == prefix@[w],
            decreases m - j,
        {
            j += 1;
        }
        if j == m {
            proof {
                assert(sdp@.subrange(at as int, at + m) =~= prefix@);
            }
            found = true;
            break ;
        }
        proof {
            assert(sdp@.subrange(at as int, at + m)[j as int] == sdp@[at + j]);
        }
        at += 1;
    }
    proof {
        lemma_first_from(sdp@, prefix@, 0, at as nat);
    }
    if !found {
        return None;
    }
    let start: usize = at + m;
    let end = find_byte(sdp, start, n, 13);
    let space = find_byte(sdp, start, end, 32);
    let begin: usize = if space < end {
        space + 1
    } else {
        start
    };
    let mut out: Vec<u8> = Vec::new();
    let mut i: usize = begin;
    while i < end
        invariant
            begin <= i <= end <= n,
            n == sdp@.len(),
            out@ == sdp@.subrange(begin as int, i as int),
        decreases end - i,
    {
        out.push(sdp[i]);
        proof {
            assert(out@ =~= sdp@.subrange(begin as int, i + 1));
        }
        i += 1;
    }
    proof {
        let rest = sdp@.skip(start as int);
        assert(rest =~= sdp@.subrange(start as int, n as int));
        let line = rest.take(end - start);
        assert(line =~= sdp@.subrange(start as int, end as int));
        if space < end {
            assert(line.skip(space - start + 1) =~= sdp@.subrange(begin as int, end as int));
        }
    }
    Some(out)
}

/// What a node sends first on a new channel: its public key, and its
/// signature of the fingerprint of its own certificate, which binds the
/// key to the channel.
pub fn handshake_request(identity: &Identity, local_sdp: &[u8]) -> (r: Result<
    HandshakeRequest,
    HandshakeError,
>)
    ensures
        match fingerprint_of(local_sdp@) {
            None => r matches Err(HandshakeError::Wrtc(WrtcError::RuntimeError(text))) && text@
                == "Cannot find fingerprint"@,
            Some(fingerprint) => match p256_signature_of(identity.secret_key(), fingerprint) {
                Some(signature) => r matches Ok(request) && request.identity@ == identity.public_key()
                    && request.proof@ == signature,
                None => r matches Err(HandshakeError::Internal(text)) && text@
                    == "Failed to generate proof"@,
            },
        },
{
    let fingerprint = match desc_to_fingerprint(local_sdp) {
        Some(x) => x,
        None => {
            return Err(
                HandshakeError::Wrtc(WrtcError::RuntimeError(String::from_str("Cannot find fingerprint"))),
            );
        },
    };
    let proof = match identity.create_proof(fingerprint.as_slice()) {
        Some(x) => x,
        None => {
            return Err(HandshakeError::Internal(String::from_str("Failed to generate proof")));
        },
    };
    let key = identity.export_key();
    let mut copy: Vec<u8> = Vec::new();
    let mut i: usize = 0;
    while i < key.len()
        invariant
            i <= key@.len(),
            copy@ == key@.take(i as int),
        decreases key@.len() - i,
    {
        copy.push(key[i]);
        proof {
            assert(copy@ =~= key@.take(i + 1));
        }
        i += 1;
    }
    proof {
        assert(key@.take(i as int) =~= key@);
    }
    Ok(HandshakeRequest { identity: copy, proof })
}

/// Checks what the peer has sent first on a new channel against the
/// fingerprint of the peer's certificate: the peer is who its key says if
/// it has signed that fingerprint. Gives the identifier of the peer.
pub fn handshake_check(identity: &Identity, request: &HandshakeRequest, remote_sdp: &[u8]) -> (r: Result<
    Id,
    HandshakeError,
>)
    ensures
        match fingerprint_of(remote_sdp@) {
            None => r matches Err(HandshakeError::Wrtc(WrtcError::RuntimeError(text))) && text@
                == "Cannot find fingerprint"@,
            Some(fingerprint) => r == if p256_verifies(request.identity@, request.proof@, fingerprint) {
                Ok::<Id, HandshakeError>(identity_of(request.identity@))
            } else {
                Err::<Id, HandshakeError>(HandshakeError::InvalidIdentity)
            },
        },
{
    let fingerprint = match desc_to_fingerprint(remote_sdp) {
        Some(x) => x,
        None => {
            return Err(
                HandshakeError::Wrtc(WrtcError::RuntimeError(String::from_str("Cannot find fingerprint"))),
            );
        },
    };
    match identity.check_identity_proof(
        request.identity.as_slice(),
        fingerprint.as_slice(),
        request.proof.as_slice(),
    ) {
        Ok(id) => Ok(id),
        Err(_) => Err(HandshakeError::InvalidIdentity),
    }
}

} // verus!
