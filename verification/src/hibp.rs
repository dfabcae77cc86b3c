use vstd::prelude::*;
use vstd::string::{StrSliceExecFns, StringExecFns};
use sha1::Digest;
use rayon::iter::{IntoParallelRefIterator, ParallelIterator};
use crate::account::{string_eq, Account};
use crate::corpus::{corpus_table, lookup, lookup_count, parse_corpus_response};
use crate::error::Error;

verus! {

/// How many leading hex characters of a digest are disclosed to the corpus.
pub const PREFIX_CHARS: usize = 5;

/// How many hex characters of a digest are withheld.
pub const SUFFIX_CHARS: usize = 35;

/// Length in bytes of the digest used for fingerprints.
pub const DIGEST_BYTES: usize = 20;

/// Length in characters of the hex form of a digest.
pub const DIGEST_HEX_CHARS: usize = 40;

/// The digest that the fixed hash algorithm assigns to a password.
/// Its value is pinned only by [`sha1_digest`].
pub uninterp spec fn sha1_of(password: Seq<char>) -> Seq<u8>;

/// The uppercase hex character for a value below sixteen.
pub open spec fn hex_digit(v: u8) -> char {
    if v == 0 {
        '0'
    } else if v == 1 {
        '1'
    } else if v == 2 {
        '2'
    } else if v == 3 {
        '3'
    } else if v == 4 {
        '4'
    } else if v == 5 {
        '5'
    } else if v == 6 {
        '6'
    } else if v == 7 {
        '7'
    } else if v == 8 {
        '8'
    } else if v == 9 {
        '9'
    } else if v == 10 {
        'A'
    } else if v == 11 {
        'B'
    } else if v == 12 {
        'C'
    } else if v == 13 {
        'D'
    } else if v == 14 {
        'E'
    } else {
        'F'
    }
}

/// Uppercase hex encoding: two characters for each byte, high part first.
pub open spec fn hex_of(bytes: Seq<u8>) -> Seq<char> {
    Seq::new(
        2 * bytes.len(),
        |i: int|
            if i % 2 == 0 {
                hex_digit(bytes[i / 2] / 16)
            } else {
                hex_digit(bytes[i / 2] % 16)
            },
    )
}

/// The full uppercase hex digest of a password.
pub open spec fn digest_hex(password: Seq<char>) -> Seq<char> {
    hex_of(sha1_of(password))
}

/// The disclosed part of a password's hex digest.
pub open spec fn prefix_of(password: Seq<char>) -> Seq<char> {
    digest_hex(password).take(PREFIX_CHARS as int)
}

/// The withheld part of a password's hex digest.
pub open spec fn suffix_of(password: Seq<char>) -> Seq<char> {
    digest_hex(password).skip(PREFIX_CHARS as int)
}

/// A password's digest, split into the part sent to the corpus and the part
/// kept local.
pub struct Fingerprint {
    pub disclosure_prefix: String,
    pub withheld_suffix: String,
}

/// What [`fingerprint`] guarantees of its result.
pub open spec fn fingerprint_ok(pw: Seq<char>, fp: Fingerprint) -> bool {
    &&& fp.disclosure_prefix@ == prefix_of(pw)
    &&& fp.withheld_suffix@ == suffix_of(pw)
    &&& fp.disclosure_prefix@.len() == PREFIX_CHARS
    &&& fp.withheld_suffix@.len() == SUFFIX_CHARS
    &&& fp.disclosure_prefix@ + fp.withheld_suffix@ == digest_hex(pw)
}

/// Relies on the sha1 crate (`Sha1` through the digest crate's `Digest`
/// trait): the returned 160-bit digest is a function of the input bytes alone.
#[verifier::external_body]
fn sha1_digest(password: &str) -> (r: Vec<u8>)
    ensures
        r@ == sha1_of(password@),
        r@.len() == DIGEST_BYTES,
{
    sha1::Sha1::digest(password.as_bytes()).to_vec()
}

/// Uppercase hex encoding of a byte string.
fn to_upper_hex(bytes: &Vec<u8>) -> (r: String)
    ensures
        r@ == hex_of(bytes@),
{
    let digits = "0123456789ABCDEF";
    proof {
        reveal_strlit("0123456789ABCDEF");
    }
    let mut out = String::new();
    let mut i: usize = 0;
    while i < bytes.len()
        invariant
            i <= bytes@.len(),
            digits@ == "0123456789ABCDEF"@,
            out@ == hex_of(bytes@.take(i as int)),
        decreases bytes@.len() - i,
    {
        proof {
            reveal_strlit("0123456789ABCDEF");
        }
        let b = bytes[i];
        let hi = b / 16;
        let lo = b % 16;
        let hs = digits.substring_char(hi as usize, hi as usize + 1);
        out.append(hs);
        let ls = digits.substring_char(lo as usize, lo as usize + 1);
        out.append(ls);
        proof {
            assert(digits@[hi as int] == hex_digit(hi));
            assert(digits@[lo as int] == hex_digit(lo));
            assert(out@ =~= hex_of(bytes@.take(i as int + 1)));
        }
        i += 1;
    }
    proof {
        assert(bytes@.take(bytes@.len() as int) =~= bytes@);
    }
    out
}

/// Computes a password's fingerprint: the fixed hash digest, uppercase hex,
/// split after the first five characters. Only the prefix ever leaves the
/// process; the suffix is matched locally.
pub fn fingerprint(password: &str) -> (r: Fingerprint)
    ensures
        fingerprint_ok(password@, r),
{
    let digest = sha1_digest(password);
    let hex = to_upper_hex(&digest);
    let hs = hex.as_str();
    let prefix = hs.substring_char(0, PREFIX_CHARS).to_owned();
    let suffix = hs.substring_char(PREFIX_CHARS, DIGEST_HEX_CHARS).to_owned();
    proof {
        assert(prefix@ =~= prefix_of(password@));
        assert(suffix@ =~= suffix_of(password@));
        assert(prefix@ + suffix@ =~= digest_hex(password@));
    }
    Fingerprint { disclosure_prefix: prefix, withheld_suffix: suffix }
}

/// Relies on rayon (`par_iter`, `map`, `collect`): the indexed parallel map
/// applies its closure to every element independently and collects the
/// results in the input's order. The closure only calls [`fingerprint`] on
/// each account's password.
#[verifier::external_body]
fn par_fingerprints(accounts: &Vec<Account>) -> (r: Vec<Fingerprint>)
    ensures
        r@.len() == accounts@.len(),
        forall|i: int| 0 <= i < accounts@.len() ==> fingerprint_ok(
            accounts@[i]@.password,
            #[trigger] r@[i],
        ),
{
    accounts.par_iter().map(|a| fingerprint(a.password())).collect()
}

/// Whether a member entry of a prefix group is sound: it points at an
/// account, carries that account's withheld suffix, and the group key is
/// that account's disclosure prefix.
pub open spec fn member_ok(
    accs: Seq<Account>,
    key: Seq<char>,
    m: (String, usize),
) -> bool {
    &&& m.1 < accs.len()
    &&& key == prefix_of(accs[m.1 as int]@.password)
    &&& m.0@ == suffix_of(accs[m.1 as int]@.password)
    &&& m.0@.len() == SUFFIX_CHARS
}

/// Whether some group of `groups` lists the account of index `i`.
pub open spec fn appears_in(groups: Seq<(String, Vec<(String, usize)>)>, i: int) -> bool {
    exists|g: int, j: int|
        0 <= g < groups.len() && 0 <= j < groups[g].1@.len() && (#[trigger] groups[g].1@[j]).1
            == i
}

/// Partitions the accounts by disclosure prefix. Each entry pairs one
/// distinct prefix with every account (by index) whose digest starts with
/// it, together with that account's withheld suffix. Every account lands in
/// exactly one group and no group is empty, so the groups are exactly the
/// distinct prefixes and one corpus query per group covers all accounts
/// while disclosing nothing a listed account does not share.
pub fn sha1_by_prefix(accounts: &Vec<Account>) -> (r: Vec<(String, Vec<(String, usize)>)>)
    ensures
        forall|g: int| 0 <= g < r@.len() ==> (#[trigger] r@[g]).0@.len() == PREFIX_CHARS,
        forall|g1: int, g2: int| 0 <= g1 < g2 < r@.len() ==> (#[trigger] r@[g1]).0@ != (
        #[trigger] r@[g2]).0@,
        forall|g: int, j: int|
            0 <= g < r@.len() && 0 <= j < r@[g].1@.len() ==> member_ok(
                accounts@,
                r@[g].0@,
                #[trigger] r@[g].1@[j],
            ),
        forall|g: int, j1: int, j2: int|
            0 <= g < r@.len() && 0 <= j1 < j2 < r@[g].1@.len() ==> (#[trigger] r@[g].1@[j1]).1
                < (#[trigger] r@[g].1@[j2]).1,
        forall|g: int| 0 <= g < r@.len() ==> (#[trigger] r@[g]).1@.len() >= 1,
        forall|i: int| 0 <= i < accounts@.len() ==> #[trigger] appears_in(r@, i),
        forall|g1: int, j1: int, g2: int, j2: int|
            0 <= g1 < r@.len() && 0 <= j1 < r@[g1].1@.len() && 0 <= g2 < r@.len() && 0 <= j2
                < r@[g2].1@.len() && (#[trigger] r@[g1].1@[j1]).1 == (
            #[trigger] r@[g2].1@[j2]).1 ==> g1 == g2 && j1 == j2,
{
    let n = accounts.len();
    let fps = par_fingerprints(accounts);
    // Distinct prefixes, in first-seen order; pos maps each account to its key.
    let mut keys: Vec<String> = Vec::new();
    let ghost mut pos: Seq<int> = Seq::empty();
    let ghost mut src: Seq<int> = Seq::empty();
    let mut i: usize = 0;
    while i < n
        invariant
            i <= n,
            n == accounts@.len(),
            fps@.len() == n,
            forall|a: int| 0 <= a < n ==> fingerprint_ok(
                accounts@[a]@.password,
                #[trigger] fps@[a],
            ),
            pos.len() == i,
            src.len() == keys@.len(),
            forall|k1: int, k2: int| 0 <= k1 < k2 < keys@.len() ==> (#[trigger] keys@[k1])@ != (
            #[trigger] keys@[k2])@,
            forall|k: int| 0 <= k < keys@.len() ==> (#[trigger] keys@[k])@.len() == PREFIX_CHARS,
            forall|k: int| 0 <= k < keys@.len() ==> 0 <= #[trigger] src[k] < i && keys@[k]@
                == prefix_of(accounts@[src[k]]@.password),
            forall|a: int| 0 <= a < i ==> 0 <= #[trigger] pos[a] < keys@.len() && keys@[pos[a]]@
                == prefix_of(accounts@[a]@.password),
        decreases n - i,
    {
        let mut k: usize = 0;
        let mut found: usize = 0;
        let mut present = false;
        while k < keys.len()
            invariant
                k <= keys@.len(),
                i < n,
                n == accounts@.len(),
                fps@.len() == n,
                fingerprint_ok(accounts@[i as int]@.password, fps@[i as int]),
                !present ==> forall|k2: int| 0 <= k2 < k ==> (#[trigger] keys@[k2])@
                    != fps@[i as int].disclosure_prefix@,
                present ==> found < keys@.len() && keys@[found as int]@ == fps@[
                    i as int
                ].disclosure_prefix@,
            decreases keys@.len() - k,
        {
            if string_eq(&keys[k], &fps[i].disclosure_prefix) {
                present = true;
                found = k;
            }
            k += 1;
        }
        let ghost pos0 = pos;
        let ghost src0 = src;
        let ghost keys0 = keys@;
        if present {
            proof {
                pos = pos0.push(found as int);
            }
        } else {
            keys.push(fps[i].disclosure_prefix.clone());
            proof {
                pos = pos0.push(keys@.len() - 1);
                src = src0.push(i as int);
            }
        }
        proof {
            assert forall|a: int| 0 <= a < i + 1 implies 0 <= #[trigger] pos[a] < keys@.len()
                && keys@[pos[a]]@ == prefix_of(accounts@[a]@.password) by {
                if a < i {
                    assert(0 <= pos0[a] < keys0.len() && keys0[pos0[a]]@ == prefix_of(
                        accounts@[a]@.password,
                    ));
                    assert(pos[a] == pos0[a]);
                    assert(keys@[pos[a]] == keys0[pos[a]]);
                } else {
                    assert(pos[a] == pos.last());
                }
            }
            assert forall|kk: int| 0 <= kk < keys@.len() implies 0 <= #[trigger] src[kk] < i + 1
                && keys@[kk]@ == prefix_of(accounts@[src[kk]]@.password) by {
                if kk < keys0.len() {
                    assert(0 <= src0[kk] < i && keys0[kk]@ == prefix_of(
                        accounts@[src0[kk]]@.password,
                    ));
                    assert(src[kk] == src0[kk]);
                    assert(keys@[kk] == keys0[kk]);
                } else {
                    assert(src[kk] == i as int);
                    assert(keys@[kk]@ == fps@[i as int].disclosure_prefix@);
                }
            }
        }
        i += 1;
    }
    // One pass per key gathers its members in index order.
    let mut r: Vec<(String, Vec<(String, usize)>)> = Vec::new();
    let mut k: usize = 0;
    while k < keys.len()
        invariant
            k <= keys@.len(),
            n == accounts@.len(),
            fps@.len() == n,
            forall|a: int| 0 <= a < n ==> fingerprint_ok(
                accounts@[a]@.password,
                #[trigger] fps@[a],
            ),
            pos.len() == n,
            src.len() == keys@.len(),
            forall|k1: int, k2: int| 0 <= k1 < k2 < keys@.len() ==> (#[trigger] keys@[k1])@ != (
            #[trigger] keys@[k2])@,
            forall|kk: int| 0 <= kk < keys@.len() ==> (#[trigger] keys@[kk])@.len()
                == PREFIX_CHARS,
            forall|kk: int| 0 <= kk < keys@.len() ==> 0 <= #[trigger] src[kk] < n && keys@[kk]@
                == prefix_of(accounts@[src[kk]]@.password),
            forall|a: int| 0 <= a < n ==> 0 <= #[trigger] pos[a] < keys@.len() && keys@[pos[a]]@
                == prefix_of(accounts@[a]@.password),
            r@.len() == k,
            forall|g: int| 0 <= g < k ==> (#[trigger] r@[g]).0 == keys@[g],
            forall|g: int| 0 <= g < k ==> (#[trigger] r@[g]).1@.len() >= 1,
            forall|g: int, j: int|
                0 <= g < k && 0 <= j < r@[g].1@.len() ==> member_ok(
                    accounts@,
                    r@[g].0@,
                    #[trigger] r@[g].1@[j],
                ),
            forall|g: int, j1: int, j2: int|
                0 <= g < k && 0 <= j1 < j2 < r@[g].1@.len() ==> (#[trigger] r@[g].1@[j1]).1
                    < (#[trigger] r@[g].1@[j2]).1,
            forall|a: int| 0 <= a < n && pos[a] < k ==> exists|j: int|
                0 <= j < r@[pos[a]].1@.len() && (#[trigger] r@[pos[a]].1@[j]).1 == a,
        decreases keys@.len() - k,
    {
        let mut members: Vec<(String, usize)> = Vec::new();
        let mut a: usize = 0;
        while a < n
            invariant
                a <= n,
                n == accounts@.len(),
                fps@.len() == n,
                k < keys@.len(),
                forall|aa: int| 0 <= aa < n ==> fingerprint_ok(
                    accounts@[aa]@.password,
                    #[trigger] fps@[aa],
                ),
                pos.len() == n,
                forall|k1: int, k2: int| 0 <= k1 < k2 < keys@.len() ==> (
                #[trigger] keys@[k1])@ != (#[trigger] keys@[k2])@,
                forall|aa: int| 0 <= aa < n ==> 0 <= #[trigger] pos[aa] < keys@.len()
                    && keys@[pos[aa]]@ == prefix_of(accounts@[aa]@.password),
                forall|j: int| 0 <= j < members@.len() ==> member_ok(
                    accounts@,
                    keys@[k as int]@,
                    #[trigger] members@[j],
                ) && members@[j].1 < a,
                forall|j1: int, j2: int| 0 <= j1 < j2 < members@.len() ==> (
                #[trigger] members@[j1]).1 < (#[trigger] members@[j2]).1,
                forall|aa: int| 0 <= aa < a && pos[aa] == k ==> exists|j: int|
                    0 <= j < members@.len() && (#[trigger] members@[j]).1 == aa,
            decreases n - a,
        {
            let ghost members0 = members@;
            if string_eq(&fps[a].disclosure_prefix, &keys[k]) {
                members.push((fps[a].withheld_suffix.clone(), a));
                proof {
                    assert(keys@[pos[a as int]]@ == keys@[k as int]@);
                    assert(pos[a as int] == k as int);
                    assert(member_ok(accounts@, keys@[k as int]@, members@[members@.len() - 1]));
                }
            } else {
                proof {
                    assert(pos[a as int] != k as int);
                }
            }
            proof {
                assert forall|aa: int| 0 <= aa < a + 1 && pos[aa] == k implies exists|j: int|
                    0 <= j < members@.len() && (#[trigger] members@[j]).1 == aa by {
                    if aa < a {
                        let j0 = choose|j0: int|
                            0 <= j0 < members0.len() && (#[trigger] members0[j0]).1 == aa;
                        assert(members@[j0].1 == aa);
                    } else {
                        assert(members@[members@.len() - 1].1 == aa);
                    }
                }
            }
            a += 1;
        }
        let ghost membersg = members@;
        let ghost r0 = r@;
        r.push((keys[k].clone(), members));
        proof {
            assert forall|a2: int| 0 <= a2 < n && pos[a2] < k + 1 implies exists|j: int|
                0 <= j < r@[pos[a2]].1@.len() && (#[trigger] r@[pos[a2]].1@[j]).1 == a2 by {
                if pos[a2] < k {
                    let j0 = choose|j0: int|
                        0 <= j0 < r0[pos[a2]].1@.len() && (#[trigger] r0[pos[a2]].1@[j0]).1
                            == a2;
                    assert(r@[pos[a2]] == r0[pos[a2]]);
                    assert(r@[pos[a2]].1@[j0].1 == a2);
                } else {
                    let j0 = choose|j0: int|
                        0 <= j0 < membersg.len() && (#[trigger] membersg[j0]).1 == a2;
                    assert(r@[k as int].1@[j0].1 == a2);
                }
            }
            // the account that introduced this key sits in the new group,
            // so no group is ever empty
            let a0 = src[k as int];
            assert(keys@[pos[a0]]@ == prefix_of(accounts@[a0]@.password));
            assert(keys@[k as int]@ == prefix_of(accounts@[a0]@.password));
            if pos[a0] < k as int {
                assert(keys@[pos[a0]]@ != keys@[k as int]@);
            }
            if (k as int) < pos[a0] {
                assert(keys@[k as int]@ != keys@[pos[a0]]@);
            }
            assert(pos[a0] == k as int);
            let j0 = choose|j0: int|
                0 <= j0 < membersg.len() && (#[trigger] membersg[j0]).1 == a0;
            assert(membersg.len() >= 1);
            assert forall|g: int| 0 <= g < k + 1 implies (#[trigger] r@[g]).1@.len() >= 1 by {
                if g < k {
                    assert(r@[g] == r0[g]);
                    assert(r0[g].1@.len() >= 1);
                } else {
                    assert(r@[g].1@ == membersg);
                }
            }
        }
        k += 1;
    }
    proof {
        assert forall|i2: int| 0 <= i2 < accounts@.len() implies #[trigger] appears_in(
            r@,
            i2,
        ) by {
            let g = pos[i2];
            let j = choose|j: int| 0 <= j < r@[g].1@.len() && (#[trigger] r@[g].1@[j]).1 == i2;
            assert(0 <= g < r@.len() && 0 <= j < r@[g].1@.len() && r@[g].1@[j].1 == i2);
        }
        assert forall|g: int| 0 <= g < r@.len() implies (#[trigger] r@[g]).0@.len()
            == PREFIX_CHARS by {
            assert(r@[g].0 == keys@[g]);
        }
        assert forall|g1: int, g2: int| 0 <= g1 < g2 < r@.len() implies (#[trigger] r@[g1]).0@
            != (#[trigger] r@[g2]).0@ by {
            assert(r@[g1].0 == keys@[g1] && r@[g2].0 == keys@[g2]);
            assert(keys@[g1]@ != keys@[g2]@);
        }
        assert forall|g1: int, j1: int, g2: int, j2: int|
            0 <= g1 < r@.len() && 0 <= j1 < r@[g1].1@.len() && 0 <= g2 < r@.len() && 0 <= j2
                < r@[g2].1@.len() && (#[trigger] r@[g1].1@[j1]).1 == (
            #[trigger] r@[g2].1@[j2]).1 implies g1 == g2 && j1 == j2 by {
            assert(member_ok(accounts@, r@[g1].0@, r@[g1].1@[j1]));
            assert(member_ok(accounts@, r@[g2].0@, r@[g2].1@[j2]));
            assert(r@[g1].0@ == r@[g2].0@);
            assert(r@[g1].0 == keys@[g1] && r@[g2].0 == keys@[g2]);
            if g1 < g2 {
                assert(keys@[g1]@ != keys@[g2]@);
            }
            if g2 < g1 {
                assert(keys@[g2]@ != keys@[g1]@);
            }
        }
    }
    r
}

/// The address queried for one disclosure prefix: the fixed corpus range
/// endpoint followed by the prefix, and nothing else.
pub fn corpus_url(prefix: &str) -> (r: String)
    ensures
        r@ == "https://api.pwnedpasswords.com/range/"@ + prefix@,
{
    let mut url = String::from_str("https://api.pwnedpasswords.com/range/");
    url.append(prefix);
    url
}

/// The views of a prefix/body response list.
pub open spec fn response_views(rs: Seq<(String, String)>) -> Seq<(Seq<char>, Seq<char>)> {
    rs.map_values(|p: (String, String)| (p.0@, p.1@))
}

/// The body of the first response whose key is `key`, if any.
pub open spec fn find_body(rs: Seq<(Seq<char>, Seq<char>)>, key: Seq<char>) -> Option<Seq<char>>
    decreases rs.len(),
{
    if rs.len() == 0 {
        None
    } else if rs[0].0 == key {
        Some(rs[0].1)
    } else {
        find_body(rs.drop_first(), key)
    }
}

proof fn lemma_find_body_found(rs: Seq<(Seq<char>, Seq<char>)>, key: Seq<char>, j: int)
    requires
        0 <= j < rs.len(),
        rs[j].0 == key,
        forall|i: int| 0 <= i < j ==> (#[trigger] rs[i]).0 != key,
    ensures
        find_body(rs, key) == Some(rs[j].1),
    decreases j,
{
    if j > 0 {
        assert(rs[0].0 != key);
        assert(rs.drop_first()[j - 1] == rs[j]);
        assert(forall|i: int| 0 <= i < j - 1 ==> (#[trigger] rs.drop_first()[i]) == rs[i + 1]);
        lemma_find_body_found(rs.drop_first(), key, j - 1);
    }
}

proof fn lemma_find_body_none(rs: Seq<(Seq<char>, Seq<char>)>, key: Seq<char>)
    requires
        forall|i: int| 0 <= i < rs.len() ==> (#[trigger] rs[i]).0 != key,
    ensures
        find_body(rs, key) is None,
    decreases rs.len(),
{
    if rs.len() > 0 {
        assert(forall|i: int| 0 <= i < rs.len() - 1 ==> (#[trigger] rs.drop_first()[i]) == rs[
            i + 1
        ]);
        lemma_find_body_none(rs.drop_first(), key);
    }
}

/// Whether the responses let this account be reconciled: a response for its
/// disclosure prefix exists and that body parses.
pub open spec fn account_ok(a: Account, rs: Seq<(Seq<char>, Seq<char>)>) -> bool {
    match find_body(rs, prefix_of(a@.password)) {
        None => false,
        Some(b) => corpus_table(b) is Some,
    }
}

/// The error an account that cannot be reconciled gives rise to.
pub open spec fn account_err(a: Account, rs: Seq<(Seq<char>, Seq<char>)>) -> Error {
    if find_body(rs, prefix_of(a@.password)) is None {
        Error::CorpusUnavailable
    } else {
        Error::CorpusProtocolError
    }
}

/// The occurrence count an account reconciles to: its withheld suffix looked
/// up in the parsed response for its prefix, zero when absent.
pub open spec fn account_count(a: Account, rs: Seq<(Seq<char>, Seq<char>)>) -> u64 {
    match find_body(rs, prefix_of(a@.password)) {
        None => 0,
        Some(b) => match corpus_table(b) {
            None => 0,
            Some(t) => lookup_count(t, suffix_of(a@.password)),
        },
    }
}

/// One result pair per account, in input order, before ranking.
pub open spec fn raw_results(accs: Seq<Account>, rs: Seq<(Seq<char>, Seq<char>)>) -> Seq<
    (usize, u64),
> {
    Seq::new(accs.len(), |i: int| ((i as usize), account_count(accs[i], rs)))
}

/// Stable insertion of a pair into a sequence ranked by descending count:
/// the new pair goes after every pair whose count is at least as large.
pub open spec fn insert_desc(x: (usize, u64), s: Seq<(usize, u64)>) -> Seq<(usize, u64)>
    decreases s.len(),
{
    if s.len() == 0 {
        seq![x]
    } else if x.1 > s[0].1 {
        seq![x] + s
    } else {
        seq![s[0]] + insert_desc(x, s.drop_first())
    }
}

/// Stable sort by descending count: pairs with equal counts keep their
/// input order.
pub open spec fn sort_desc(s: Seq<(usize, u64)>) -> Seq<(usize, u64)>
    decreases s.len(),
{
    if s.len() == 0 {
        Seq::empty()
    } else {
        insert_desc(s.last(), sort_desc(s.drop_last()))
    }
}

/// Whether counts never increase along the sequence.
pub open spec fn sorted_desc(s: Seq<(usize, u64)>) -> bool {
    forall|x: int, y: int| 0 <= x < y < s.len() ==> (#[trigger] s[x]).1 >= (#[trigger] s[y]).1
}

/// How many pairs of `s` carry the account index `id`.
pub open spec fn count_idx(s: Seq<(usize, u64)>, id: int) -> int
    decreases s.len(),
{
    if s.len() == 0 {
        0
    } else {
        (if s[0].0 as int == id {
            1int
        } else {
            0int
        }) + count_idx(s.drop_first(), id)
    }
}

proof fn lemma_count_drop_last(s: Seq<(usize, u64)>, id: int)
    requires
        s.len() > 0,
    ensures
        count_idx(s, id) == count_idx(s.drop_last(), id) + if s.last().0 as int == id {
            1int
        } else {
            0int
        },
    decreases s.len(),
{
    if s.len() == 1 {
        assert(s.drop_first() =~= Seq::<(usize, u64)>::empty());
        assert(s.drop_last() =~= Seq::<(usize, u64)>::empty());
    } else {
        lemma_count_drop_last(s.drop_first(), id);
        assert(s.drop_first().drop_last() =~= s.drop_last().drop_first());
        assert(s.drop_first().last() == s.last());
        assert(s.drop_last()[0] == s[0]);
    }
}

proof fn lemma_insert_desc_len(x: (usize, u64), s: Seq<(usize, u64)>)
    ensures
        insert_desc(x, s).len() == s.len() + 1,
    decreases s.len(),
{
    if s.len() > 0 && !(x.1 > s[0].1) {
        lemma_insert_desc_len(x, s.drop_first());
    }
}

proof fn lemma_insert_desc_count(x: (usize, u64), s: Seq<(usize, u64)>, id: int)
    ensures
        count_idx(insert_desc(x, s), id) == count_idx(s, id) + if x.0 as int == id {
            1int
        } else {
            0int
        },
    decreases s.len(),
{
    if s.len() == 0 {
        assert(insert_desc(x, s) =~= seq![x]);
        assert(seq![x].drop_first() =~= Seq::<(usize, u64)>::empty());
        assert(count_idx(Seq::<(usize, u64)>::empty(), id) == 0);
    } else if x.1 > s[0].1 {
        let t = seq![x] + s;
        assert(insert_desc(x, s) == t);
        assert(t.drop_first() =~= s);
        assert(t[0] == x);
        assert(t.len() > 0);
        assert(count_idx(t, id) == (if t[0].0 as int == id {
            1int
        } else {
            0int
        }) + count_idx(t.drop_first(), id));
    } else {
        lemma_insert_desc_count(x, s.drop_first(), id);
        let t = seq![s[0]] + insert_desc(x, s.drop_first());
        assert(insert_desc(x, s) == t);
        assert(t.drop_first() =~= insert_desc(x, s.drop_first()));
        assert(t[0] == s[0]);
        assert(t.len() > 0);
        assert(count_idx(t, id) == (if t[0].0 as int == id {
            1int
        } else {
            0int
        }) + count_idx(t.drop_first(), id));
    }
}

proof fn lemma_insert_desc_sorted(x: (usize, u64), s: Seq<(usize, u64)>)
    requires
        sorted_desc(s),
    ensures
        sorted_desc(insert_desc(x, s)),
        forall|i: int|
            0 <= i < insert_desc(x, s).len() ==> (#[trigger] insert_desc(x, s)[i]) == x
                || s.contains(insert_desc(x, s)[i]),
    decreases s.len(),
{
    lemma_insert_desc_len(x, s);
    if s.len() == 0 {
    } else if x.1 > s[0].1 {
        let t = seq![x] + s;
        assert forall|i: int| 0 <= i < t.len() implies (#[trigger] t[i]) == x || s.contains(
            t[i],
        ) by {
            if i > 0 {
                assert(t[i] == s[i - 1]);
                assert(s.contains(s[i - 1]));
            }
        }
        assert forall|a: int, b: int| 0 <= a < b < t.len() implies (#[trigger] t[a]).1 >= (
        #[trigger] t[b]).1 by {
            if a > 0 {
                assert(t[a] == s[a - 1] && t[b] == s[b - 1]);
            } else {
                assert(t[b] == s[b - 1]);
                assert(s[0].1 >= s[b - 1].1);
            }
        }
    } else {
        assert(sorted_desc(s.drop_first())) by {
            assert(forall|i: int|
                0 <= i < s.len() - 1 ==> (#[trigger] s.drop_first()[i]) == s[i + 1]);
        }
        lemma_insert_desc_sorted(x, s.drop_first());
        let u = insert_desc(x, s.drop_first());
        let t = seq![s[0]] + u;
        assert forall|i: int| 0 <= i < t.len() implies (#[trigger] t[i]) == x || s.contains(
            t[i],
        ) by {
            if i == 0 {
                assert(s.contains(s[0]));
            } else {
                assert(t[i] == u[i - 1]);
                if u[i - 1] == x {
                } else {
                    let q = choose|q: int|
                        0 <= q < s.drop_first().len() && s.drop_first()[q] == u[i - 1];
                    assert(s[q + 1] == u[i - 1]);
                    assert(s.contains(s[q + 1]));
                }
            }
        }
        assert forall|a: int, b: int| 0 <= a < b < t.len() implies (#[trigger] t[a]).1 >= (
        #[trigger] t[b]).1 by {
            if a == 0 {
                assert(t[b] == u[b - 1]);
                if u[b - 1] == x {
                    assert(s[0].1 >= x.1);
                } else {
                    let q = choose|q: int|
                        0 <= q < s.drop_first().len() && s.drop_first()[q] == u[b - 1];
                    assert(s[q + 1] == u[b - 1]);
                    assert(s[0].1 >= s[q + 1].1);
                }
            } else {
                assert(t[a] == u[a - 1] && t[b] == u[b - 1]);
            }
        }
    }
}

proof fn lemma_sort_desc_props(s: Seq<(usize, u64)>)
    ensures
        sort_desc(s).len() == s.len(),
        sorted_desc(sort_desc(s)),
        forall|id: int| #[trigger] count_idx(sort_desc(s), id) == count_idx(s, id),
    decreases s.len(),
{
    if s.len() > 0 {
        lemma_sort_desc_props(s.drop_last());
        lemma_insert_desc_len(s.last(), sort_desc(s.drop_last()));
        lemma_insert_desc_sorted(s.last(), sort_desc(s.drop_last()));
        assert forall|id: int| #[trigger] count_idx(sort_desc(s), id) == count_idx(s, id) by {
            lemma_insert_desc_count(s.last(), sort_desc(s.drop_last()), id);
            lemma_count_drop_last(s, id);
        }
    }
}

proof fn lemma_count_raw(accs: Seq<Account>, rs: Seq<(Seq<char>, Seq<char>)>, id: int)
    requires
        accs.len() <= usize::MAX,
    ensures
        count_idx(raw_results(accs, rs), id) == if 0 <= id < accs.len() {
            1int
        } else {
            0int
        },
    decreases accs.len(),
{
    let raw = raw_results(accs, rs);
    if accs.len() == 0 {
    } else {
        lemma_count_drop_last(raw, id);
        assert(raw.drop_last() =~= raw_results(accs.drop_last(), rs));
        lemma_count_raw(accs.drop_last(), rs, id);
        assert(raw.last().0 as int == accs.len() - 1);
    }
}

/// Ranks result pairs by descending occurrence count; pairs with equal
/// counts keep their input order.
fn sort_by_count(v: Vec<(usize, u64)>) -> (r: Vec<(usize, u64)>)
    ensures
        r@ == sort_desc(v@),
{
    let mut r: Vec<(usize, u64)> = Vec::new();
    let mut idx: usize = 0;
    while idx < v.len()
        invariant
            idx <= v@.len(),
            r@ == sort_desc(v@.take(idx as int)),
        decreases v@.len() - idx,
    {
        let x = v[idx];
        let ghost r0 = r@;
        let mut p: usize = 0;
        while p < r.len() && !(x.1 > r[p].1)
            invariant
                p <= r@.len(),
                r@ == r0,
                forall|q: int| 0 <= q < p ==> !(x.1 > (#[trigger] r@[q]).1),
            decreases r@.len() - p,
        {
            p += 1;
        }
        r.insert(p, x);
        proof {
            lemma_insert_desc_at(r0, x, p as int);
            assert(v@.take(idx as int + 1).drop_last() =~= v@.take(idx as int));
            assert(v@.take(idx as int + 1).last() == v@[idx as int]);
        }
        idx += 1;
    }
    proof {
        assert(v@.take(v@.len() as int) =~= v@);
    }
    r
}

proof fn lemma_insert_desc_at(s: Seq<(usize, u64)>, x: (usize, u64), p: int)
    requires
        0 <= p <= s.len(),
        forall|q: int| 0 <= q < p ==> !(x.1 > (#[trigger] s[q]).1),
        p < s.len() ==> x.1 > s[p].1,
    ensures
        insert_desc(x, s) == s.insert(p, x),
    decreases p,
{
    if p == 0 {
        if s.len() == 0 {
            assert(insert_desc(x, s) =~= s.insert(0, x));
        } else {
            assert(x.1 > s[0].1);
            assert(seq![x] + s =~= s.insert(0, x));
        }
    } else {
        assert(!(x.1 > s[0].1));
        assert(forall|q: int|
            0 <= q < p - 1 ==> (#[trigger] s.drop_first()[q]) == s[q + 1]);
        assert(p - 1 < s.drop_first().len() ==> x.1 > s.drop_first()[p - 1].1);
        lemma_insert_desc_at(s.drop_first(), x, p - 1);
        assert(seq![s[0]] + s.drop_first().insert(p - 1, x) =~= s.insert(p, x));
    }
}

/// Finds the first response held for `key`, by index.
fn find_response(responses: &Vec<(String, String)>, key: &String) -> (r: Option<usize>)
    ensures
        match r {
            Some(j) => j < responses@.len() && find_body(response_views(responses@), key@)
                == Some(responses@[j as int].1@),
            None => find_body(response_views(responses@), key@) is None,
        },
{
    let mut j: usize = 0;
    while j < responses.len()
        invariant
            j <= responses@.len(),
            forall|q: int| 0 <= q < j ==> (#[trigger] response_views(responses@)[q]).0 != key@,
        decreases responses@.len() - j,
    {
        if string_eq(&responses[j].0, key) {
            proof {
                assert(response_views(responses@)[j as int].0 == key@);
                lemma_find_body_found(response_views(responses@), key@, j as int);
            }
            return Some(j);
        }
        proof {
            assert(response_views(responses@)[j as int].0 == responses@[j as int].0@);
        }
        j += 1;
    }
    proof {
        lemma_find_body_none(response_views(responses@), key@);
    }
    None
}

/// Whether an error is exactly the one owed to the first account (in input
/// order) that the responses cannot reconcile.
pub open spec fn fails_first(
    accs: Seq<Account>,
    rs: Seq<(Seq<char>, Seq<char>)>,
    e: Error,
) -> bool {
    exists|i: int|
        {
            &&& 0 <= i < accs.len()
            &&& !account_ok(#[trigger] accs[i], rs)
            &&& e == account_err(accs[i], rs)
            &&& forall|j: int| 0 <= j < i ==> account_ok(#[trigger] accs[j], rs)
        }
}

/// Reconciles every account against the corpus responses, one response per
/// disclosure prefix, and ranks the outcome.
///
/// On success the result holds exactly one `(account index, count)` pair per
/// account, ordered by non-increasing count, counts of zero kept. It fails
/// with [`Error::CorpusUnavailable`] when a needed prefix has no response and
/// with [`Error::CorpusProtocolError`] when the response held for a needed
/// prefix is malformed; the error reported is the first account's, in input
/// order.
pub fn check_accounts(accounts: &Vec<Account>, responses: &Vec<(String, String)>) -> (r: Result<
    Vec<(usize, u64)>,
    Error,
>)
    ensures
        match r {
            Ok(out) => {
                &&& forall|i: int| 0 <= i < accounts@.len() ==> account_ok(
                    #[trigger] accounts@[i],
                    response_views(responses@),
                )
                &&& out@ == sort_desc(raw_results(accounts@, response_views(responses@)))
                &&& out@.len() == accounts@.len()
                &&& sorted_desc(out@)
                &&& forall|id: int| 0 <= id < accounts@.len() ==> count_idx(out@, id) == 1
            },
            Err(e) => fails_first(accounts@, response_views(responses@), e),
        },
{
    let n = accounts.len();
    let fps = par_fingerprints(accounts);
    let ghost rv = response_views(responses@);
    let mut raw: Vec<(usize, u64)> = Vec::new();
    let mut i: usize = 0;
    while i < n
        invariant
            i <= n,
            n == accounts@.len(),
            fps@.len() == n,
            rv == response_views(responses@),
            forall|a: int| 0 <= a < n ==> fingerprint_ok(
                accounts@[a]@.password,
                #[trigger] fps@[a],
            ),
            raw@.len() == i,
            forall|a: int| 0 <= a < i ==> (#[trigger] raw@[a]) == (
                (a as usize),
                account_count(accounts@[a], rv),
            ),
            forall|a: int| 0 <= a < i ==> account_ok(#[trigger] accounts@[a], rv),
        decreases n - i,
    {
        match find_response(responses, &fps[i].disclosure_prefix) {
            None => {
                proof {
                    assert(find_body(rv, prefix_of(accounts@[i as int]@.password)) is None);
                    assert(!account_ok(accounts@[i as int], rv));
                    assert(account_err(accounts@[i as int], rv) == Error::CorpusUnavailable);
                    assert(fails_first(accounts@, rv, Error::CorpusUnavailable)) by {
                        assert(0 <= (i as int) < accounts@.len() && !account_ok(
                            accounts@[i as int],
                            rv,
                        ) && Error::CorpusUnavailable == account_err(accounts@[i as int], rv)
                            && forall|j: int|
                            0 <= j < (i as int) ==> account_ok(#[trigger] accounts@[j], rv));
                    }
                }
                return Err(Error::CorpusUnavailable);
            },
            Some(j) => {
                match parse_corpus_response(responses[j].1.as_str()) {
                    Err(e) => {
                        proof {
                            assert(corpus_table(
                                find_body(rv, prefix_of(accounts@[i as int]@.password)).unwrap(),
                            ) is None);
                            assert(!account_ok(accounts@[i as int], rv));
                            assert(e == account_err(accounts@[i as int], rv));
                            assert(fails_first(accounts@, rv, e)) by {
                                assert(0 <= (i as int) < accounts@.len() && !account_ok(
                                    accounts@[i as int],
                                    rv,
                                ) && e == account_err(accounts@[i as int], rv) && forall|
                                    j2: int,
                                |
                                    0 <= j2 < (i as int) ==> account_ok(
                                        #[trigger] accounts@[j2],
                                        rv,
                                    ));
                            }
                        }
                        return Err(e);
                    },
                    Ok(table) => {
                        let c = lookup(&table, &fps[i].withheld_suffix);
                        raw.push((i, c));
                        proof {
                            assert(account_ok(accounts@[i as int], rv));
                            assert(c == account_count(accounts@[i as int], rv));
                        }
                    },
                }
            },
        }
        i += 1;
    }
    proof {
        assert(raw@ =~= raw_results(accounts@, rv));
    }
    let out = sort_by_count(raw);
    proof {
        lemma_sort_desc_props(raw_results(accounts@, rv));
        assert forall|id: int| 0 <= id < accounts@.len() implies count_idx(out@, id) == 1 by {
            lemma_count_raw(accounts@, rv, id);
        }
    }
    Ok(out)
}

} // verus!
