use vstd::prelude::*;
use vstd::string::StrSliceExecFns;
use crate::error::Error;

verus! {

/// One parsed `login:password` record. The password is sensitive and is
/// never exposed by the audit routines other than through [`Account::password`].
#[derive(Debug)]
pub struct Account {
    login: String,
    password: String,
}

/// The mathematical content of an [`Account`]: both fields as character sequences.
pub struct AccountView {
    pub login: Seq<char>,
    pub password: Seq<char>,
}

impl View for Account {
    type V = AccountView;

    closed spec fn view(&self) -> AccountView {
        AccountView { login: self.login@, password: self.password@ }
    }
}

/// The logins of the accounts among `accs[0..upto]` whose password is exactly
/// `pw`, in the order those accounts appear.
pub open spec fn logins_with(accs: Seq<Account>, pw: Seq<char>, upto: int) -> Seq<Seq<char>>
    decreases upto,
{
    if upto <= 0 {
        Seq::empty()
    } else if accs[upto - 1]@.password == pw {
        logins_with(accs, pw, upto - 1).push(accs[upto - 1]@.login)
    } else {
        logins_with(accs, pw, upto - 1)
    }
}

/// How many accounts of `accs` use password `pw`.
pub open spec fn uses_of(accs: Seq<Account>, pw: Seq<char>) -> nat {
    logins_with(accs, pw, accs.len() as int).len()
}

/// The views of a sequence of strings.
pub open spec fn string_views(s: Seq<String>) -> Seq<Seq<char>> {
    s.map_values(|x: String| x@)
}

/// Whether one of the strings of `keys` reads exactly `pw`.
pub open spec fn some_key_is(keys: Seq<String>, pw: Seq<char>) -> bool {
    exists|k: int| 0 <= k < keys.len() && (#[trigger] keys[k])@ == pw
}

proof fn lemma_logins_nonempty(accs: Seq<Account>, pw: Seq<char>, upto: int)
    requires
        0 <= upto <= accs.len(),
        logins_with(accs, pw, upto).len() > 0,
    ensures
        exists|i: int| 0 <= i < upto && (#[trigger] accs[i])@.password == pw,
    decreases upto,
{
    if upto > 0 {
        if accs[upto - 1]@.password == pw {
            assert(0 <= upto - 1 < upto && accs[upto - 1]@.password == pw);
        } else {
            lemma_logins_nonempty(accs, pw, upto - 1);
        }
    }
}

pub(crate) fn string_eq(a: &String, b: &String) -> (r: bool)
    ensures
        r == (a@ == b@),
{
    a.eq(b)
}

impl Account {
    /// Builds an account from its two parts.
    pub fn new(login: &str, password: &str) -> (r: Account)
        ensures
            r@.login == login@,
            r@.password == password@,
    {
        Account { login: login.to_owned(), password: password.to_owned() }
    }

    /// The login part of the record.
    pub fn login(&self) -> (r: &str)
        ensures
            r@ == self@.login,
    {
        self.login.as_str()
    }

    /// The password part of the record.
    pub fn password(&self) -> (r: &str)
        ensures
            r@ == self@.password,
    {
        self.password.as_str()
    }

    /// Parses a `login:password` line. The first colon separates login from
    /// password; later colons belong to the password. A line without any
    /// colon is rejected with [`Error::MissingDelimiter`].
    pub fn from_line(s: &str) -> (r: Result<Account, Error>)
        ensures
            match s@.index_of_first(':') {
                Some(i) => match r {
                    Ok(a) => a@.login == s@.take(i) && a@.password == s@.skip(i + 1),
                    Err(_) => false,
                },
                None => r == Err::<Account, Error>(Error::MissingDelimiter),
            },
    {
        let len = s.unicode_len();
        let mut i: usize = 0;
        while i < len
            invariant
                i <= len,
                len == s@.len(),
                forall|j: int| 0 <= j < i ==> s@[j] != ':',
            decreases len - i,
        {
            if s.get_char(i) == ':' {
                let login = s.substring_char(0, i).to_owned();
                let password = s.substring_char(i + 1, len).to_owned();
                proof {
                    assert(s@.contains(':')) by {
                        assert(0 <= i < s@.len() && s@[i as int] == ':');
                    }
                    s@.index_of_first_ensures(':');
                    match s@.index_of_first(':') {
                        Some(idx) => {
                            assert(idx == i as int);
                            assert(login@ =~= s@.take(idx));
                            assert(password@ =~= s@.skip(idx + 1));
                        },
                        None => {
                            assert(false);
                        },
                    }
                }
                return Ok(Account { login, password });
            }
            i += 1;
        }
        proof {
            s@.index_of_first_ensures(':');
            match s@.index_of_first(':') {
                Some(idx) => {
                    assert(s@[idx] == ':');
                    assert(false);
                },
                None => {},
            }
        }
        Err(Error::MissingDelimiter)
    }
}

/// Collects the distinct passwords of `accounts`, in first-seen order.
fn distinct_passwords(accounts: &Vec<Account>) -> (keys: Vec<String>)
    ensures
        forall|k1: int, k2: int| 0 <= k1 < k2 < keys@.len() ==> (#[trigger] keys@[k1])@ != (
        #[trigger] keys@[k2])@,
        forall|a: int| 0 <= a < accounts@.len() ==> some_key_is(
            keys@,
            (#[trigger] accounts@[a])@.password,
        ),
{
    let n = accounts.len();
    let mut keys: Vec<String> = Vec::new();
    let ghost mut pos: Seq<int> = Seq::empty();
    let mut i: usize = 0;
    while i < n
        invariant
            i <= n,
            n == accounts@.len(),
            pos.len() == i,
            forall|k1: int, k2: int| 0 <= k1 < k2 < keys@.len() ==> (#[trigger] keys@[k1])@ != (
            #[trigger] keys@[k2])@,
            forall|a: int| 0 <= a < i ==> 0 <= #[trigger] pos[a] < keys@.len() && keys@[pos[a]]@
                == accounts@[a]@.password,
        decreases n - i,
    {
        let mut k: usize = 0;
        let mut found: usize = 0;
        let mut present = false;
        while k < keys.len()
            invariant
                k <= keys@.len(),
                i < n,
                n == accounts@.len(),
                !present ==> forall|k2: int| 0 <= k2 < k ==> (#[trigger] keys@[k2])@
                    != accounts@[i as int]@.password,
                present ==> found < keys@.len() && keys@[found as int]@
                    == accounts@[i as int]@.password,
            decreases keys@.len() - k,
        {
            if string_eq(&keys[k], &accounts[i].password) {
                present = true;
                found = k;
            }
            k += 1;
        }
        let ghost pos0 = pos;
        let ghost keys0 = keys@;
        if present {
            proof {
                pos = pos0.push(found as int);
            }
        } else {
            keys.push(accounts[i].password.clone());
            proof {
                pos = pos0.push(keys@.len() - 1);
            }
        }
        proof {
            assert forall|a: int| 0 <= a < i + 1 implies 0 <= #[trigger] pos[a] < keys@.len()
                && keys@[pos[a]]@ == accounts@[a]@.password by {
                if a < i {
                    assert(0 <= pos0[a] < keys0.len() && keys0[pos0[a]]@
                        == accounts@[a]@.password);
                    assert(pos[a] == pos0[a]);
                    assert(keys@[pos[a]] == keys0[pos[a]]);
                } else {
                    assert(pos[a] == pos.last());
                }
            }
        }
        i += 1;
    }
    proof {
        assert forall|a: int| 0 <= a < accounts@.len() implies some_key_is(
            keys@,
            (#[trigger] accounts@[a])@.password,
        ) by {
            assert(0 <= pos[a] < keys@.len() && keys@[pos[a]]@ == accounts@[a]@.password);
        }
    }
    keys
}

/// Collects, in input order, the logins of every account whose password is `key`.
fn logins_for(accounts: &Vec<Account>, key: &String) -> (members: Vec<String>)
    ensures
        string_views(members@) == logins_with(accounts@, key@, accounts@.len() as int),
{
    let n = accounts.len();
    let mut members: Vec<String> = Vec::new();
    let mut a: usize = 0;
    while a < n
        invariant
            a <= n,
            n == accounts@.len(),
            string_views(members@) == logins_with(accounts@, key@, a as int),
        decreases n - a,
    {
        if string_eq(&accounts[a].password, key) {
            members.push(accounts[a].login.clone());
        }
        proof {
            assert(string_views(members@) =~= logins_with(accounts@, key@, a as int + 1));
        }
        a += 1;
    }
    members
}

/// Builds the reuse report from the distinct password list: one entry per
/// password used at least twice, carrying that password's logins in order.
fn collect_groups(accounts: &Vec<Account>, keys: &Vec<String>) -> (r: Vec<(String, Vec<String>)>)
    requires
        forall|k1: int, k2: int| 0 <= k1 < k2 < keys@.len() ==> (#[trigger] keys@[k1])@ != (
        #[trigger] keys@[k2])@,
    ensures
        forall|g: int| 0 <= g < r@.len() ==> (#[trigger] r@[g]).1@.len() >= 2,
        forall|g: int| 0 <= g < r@.len() ==> string_views((#[trigger] r@[g]).1@) == logins_with(
            accounts@,
            r@[g].0@,
            accounts@.len() as int,
        ),
        forall|g1: int, g2: int| 0 <= g1 < g2 < r@.len() ==> (#[trigger] r@[g1]).0@ != (
        #[trigger] r@[g2]).0@,
        forall|kk: int|
            0 <= kk < keys@.len() && logins_with(
                accounts@,
                (#[trigger] keys@[kk])@,
                accounts@.len() as int,
            ).len() >= 2 ==> exists|g: int| 0 <= g < r@.len() && (#[trigger] r@[g]).0@
                == keys@[kk]@,
{
    let n = accounts.len();
    let mut r: Vec<(String, Vec<String>)> = Vec::new();
    let ghost mut sel: Seq<int> = Seq::empty();
    let ghost mut inv: Map<int, int> = Map::empty();
    let mut k: usize = 0;
    while k < keys.len()
        invariant
            k <= keys@.len(),
            n == accounts@.len(),
            forall|k1: int, k2: int| 0 <= k1 < k2 < keys@.len() ==> (#[trigger] keys@[k1])@ != (
            #[trigger] keys@[k2])@,
            sel.len() == r@.len(),
            forall|g: int| 0 <= g < r@.len() ==> 0 <= #[trigger] sel[g] < k && keys@[sel[g]]@
                == r@[g].0@,
            forall|g1: int, g2: int| 0 <= g1 < g2 < r@.len() ==> sel[g1] < sel[g2],
            forall|g: int| 0 <= g < r@.len() ==> (#[trigger] r@[g]).1@.len() >= 2,
            forall|g: int| 0 <= g < r@.len() ==> string_views((#[trigger] r@[g]).1@)
                == logins_with(accounts@, r@[g].0@, n as int),
            forall|kk: int|
                0 <= kk < k && logins_with(accounts@, (#[trigger] keys@[kk])@, n as int).len()
                    >= 2 ==> inv.contains_key(kk) && 0 <= inv[kk] < r@.len() && r@[inv[kk]].0@
                    == keys@[kk]@,
        decreases keys@.len() - k,
    {
        let members = logins_for(accounts, &keys[k]);
        let ghost mlen = string_views(members@).len();
        proof {
            assert(mlen == logins_with(accounts@, keys@[k as int]@, n as int).len());
        }
        let ghost sel0 = sel;
        let ghost inv0 = inv;
        let ghost r0 = r@;
        if members.len() >= 2 {
            r.push((keys[k].clone(), members));
            proof {
                sel = sel0.push(k as int);
                inv = inv0.insert(k as int, r@.len() - 1);
            }
        }
        proof {
            assert forall|g: int| 0 <= g < r@.len() implies 0 <= #[trigger] sel[g] < k + 1
                && keys@[sel[g]]@ == r@[g].0@ by {
                if g < r0.len() {
                    assert(0 <= sel0[g] < k && keys@[sel0[g]]@ == r0[g].0@);
                    assert(sel[g] == sel0[g]);
                    assert(r@[g] == r0[g]);
                } else {
                    assert(sel[g] == k as int);
                }
            }
            assert forall|g1: int, g2: int| 0 <= g1 < g2 < r@.len() implies sel[g1] < sel[g2] by {
                if g2 == r@.len() - 1 && r@.len() > r0.len() {
                    assert(0 <= sel0[g1] < k && keys@[sel0[g1]]@ == r0[g1].0@);
                    assert(sel[g1] == sel0[g1] < k as int);
                } else {
                    assert(sel0[g1] < sel0[g2]);
                    assert(sel[g1] == sel0[g1] && sel[g2] == sel0[g2]);
                }
            }
            assert forall|kk: int|
                0 <= kk < k + 1 && logins_with(accounts@, (#[trigger] keys@[kk])@, n as int).len()
                    >= 2 implies inv.contains_key(kk) && 0 <= inv[kk] < r@.len() && r@[inv[kk]].0@
                == keys@[kk]@ by {
                if kk == k as int {
                    assert(r@.len() > r0.len());
                    assert(inv[kk] == r@.len() - 1);
                    assert(r@[inv[kk]].0@ == keys@[kk]@);
                } else {
                    assert(inv[kk] == inv0[kk]);
                    assert(r@[inv0[kk]] == r0[inv0[kk]]);
                }
            }
        }
        k += 1;
    }
    proof {
        assert forall|g1: int, g2: int| 0 <= g1 < g2 < r@.len() implies (#[trigger] r@[g1]).0@
            != (#[trigger] r@[g2]).0@ by {
            assert(keys@[sel[g1]]@ != keys@[sel[g2]]@);
        }
        assert forall|kk: int|
            0 <= kk < keys@.len() && logins_with(
                accounts@,
                (#[trigger] keys@[kk])@,
                accounts@.len() as int,
            ).len() >= 2 implies exists|g: int|
            0 <= g < r@.len() && (#[trigger] r@[g]).0@ == keys@[kk]@ by {
            assert(r@[inv[kk]].0@ == keys@[kk]@);
        }
    }
    r
}

/// Groups logins by exact (case-sensitive) password equality and keeps only
/// the passwords used by two or more accounts: the password-reuse report.
///
/// Every entry pairs a reused password with the logins that use it, in the
/// order the accounts were given; a password used exactly once never appears.
pub fn group(accounts: &Vec<Account>) -> (r: Vec<(String, Vec<String>)>)
    ensures
        forall|g: int| 0 <= g < r@.len() ==> (#[trigger] r@[g]).1@.len() >= 2,
        forall|g: int| 0 <= g < r@.len() ==> string_views((#[trigger] r@[g]).1@) == logins_with(
            accounts@,
            r@[g].0@,
            accounts@.len() as int,
        ),
        forall|g: int| 0 <= g < r@.len() ==> uses_of(accounts@, (#[trigger] r@[g]).0@) >= 2,
        forall|g1: int, g2: int| 0 <= g1 < g2 < r@.len() ==> (#[trigger] r@[g1]).0@ != (
        #[trigger] r@[g2]).0@,
        forall|pw: Seq<char>| #[trigger] uses_of(accounts@, pw) >= 2 ==> exists|g: int|
            0 <= g < r@.len() && (#[trigger] r@[g]).0@ == pw,
{
    let keys = distinct_passwords(accounts);
    let r = collect_groups(accounts, &keys);
    proof {
        assert forall|pw: Seq<char>| #[trigger] uses_of(accounts@, pw) >= 2 implies exists|g: int|
            0 <= g < r@.len() && (#[trigger] r@[g]).0@ == pw by {
            lemma_logins_nonempty(accounts@, pw, accounts@.len() as int);
            let a = choose|a: int|
                0 <= a < accounts@.len() && (#[trigger] accounts@[a])@.password == pw;
            assert(some_key_is(keys@, pw));
            let kk = choose|kk: int| 0 <= kk < keys@.len() && (#[trigger] keys@[kk])@ == pw;
            assert(logins_with(accounts@, keys@[kk]@, accounts@.len() as int).len() >= 2);
        }
    }
    r
}

} // verus!
