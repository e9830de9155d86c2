use vstd::prelude::*;

use crate::codec;
use crate::errors::Error;
use crate::input;
use crate::order;
use crate::totp;

verus! {

use vstd::string::StringSliceAdditionalSpecFns;
use crate::codec::utf8_bytes;
use crate::order::Rel;
use crate::order::lex_lt;

/// One stored record: a unique account name and its base32-encoded secret,
/// kept verbatim as the user supplied it.
pub struct Account {
    pub name: String,
    pub secret: String,
}

impl Account {
    /// The UTF-8 bytes of the account's name: the key the store orders by.
    pub open spec fn key(self) -> Seq<u8> {
        utf8_bytes(self.name@)
    }

    pub fn new(name: &str, secret: &str) -> (a: Account)
        ensures
            a.name@ == name@,
            a.secret@ == secret@,
    {
        Account { name: name.to_owned(), secret: secret.to_owned() }
    }

    /// The current 6-digit code for this account: the secret is re-validated
    /// defensively, and a secret that does not decode is an error.
    pub fn get_totp(&self, seconds: u64) -> (r: Result<String, Error>)
        ensures
            r is Ok <==> codec::spec_secret_valid(utf8_bytes(self.secret@)),
            r matches Ok(code) ==> code@ == totp::spec_code(
                codec::base32_decoded(utf8_bytes(self.secret@))->0,
                seconds / 30,
            ) && code@.len() == 6 && (forall|i: int|
                0 <= i < code@.len() ==> totp::digit_char(#[trigger] code@[i])),
            r matches Err(e) ==> e == Error::InvalidSecret,
    {
        match codec::decode(self.secret.as_str()) {
            Ok(key) => Ok(totp::generate(key.as_slice(), seconds)),
            Err(_) => Err(Error::InvalidSecret),
        }
    }
}

/// A strictly sorted run of accounts: names ascend, so no name repeats.
pub open spec fn spec_sorted(s: Seq<Account>) -> bool {
    forall|i: int, j: int| 0 <= i < j < s.len() ==> lex_lt(s[i].key(), s[j].key())
}

/// A strictly sorted store is determined by its contents: two sorted runs
/// holding the same accounts are the very same sequence. Writing the store
/// out and reading it back therefore yields an identical collection, however
/// the written records were permuted on the way.
pub proof fn lemma_sorted_store_unique(a: Seq<Account>, b: Seq<Account>)
    requires
        spec_sorted(a),
        spec_sorted(b),
        a.to_multiset() == b.to_multiset(),
    ensures
        a == b,
    decreases a.len(),
{
    a.to_multiset_ensures();
    b.to_multiset_ensures();
    if a.len() == 0 {
        assert(b.to_multiset().len() == 0);
        assert(a =~= b);
    } else {
        assert(a.contains(a[0]));
        assert(b.to_multiset().count(a[0]) > 0);
        assert(b.contains(a[0]));
        let j = choose|j: int| 0 <= j < b.len() && b[j] == a[0];
        assert(b.contains(b[0]));
        assert(a.to_multiset().count(b[0]) > 0);
        assert(a.contains(b[0]));
        let i = choose|i: int| 0 <= i < a.len() && a[i] == b[0];
        if j > 0 {
            if i > 0 {
                order::lemma_lex_lt_asym(a[0].key(), a[i].key());
                assert(lex_lt(b[0].key(), b[j].key()));
                assert(false);
            } else {
                order::lemma_lex_lt_asym(b[0].key(), b[j].key());
                assert(false);
            }
        }
        assert(a[0] == b[0]);
        let a1 = a.drop_first();
        let b1 = b.drop_first();
        assert(a.remove(0) =~= a1);
        assert(b.remove(0) =~= b1);
        assert(a1.to_multiset() == b1.to_multiset());
        assert(spec_sorted(a1)) by {
            assert forall|p: int, q: int| 0 <= p < q < a1.len() implies lex_lt(
                (#[trigger] a1[p]).key(),
                (#[trigger] a1[q]).key(),
            ) by {
                assert(a1[p] == a[p + 1] && a1[q] == a[q + 1]);
            }
        }
        assert(spec_sorted(b1)) by {
            assert forall|p: int, q: int| 0 <= p < q < b1.len() implies lex_lt(
                (#[trigger] b1[p]).key(),
                (#[trigger] b1[q]).key(),
            ) by {
                assert(b1[p] == b[p + 1] && b1[q] == b[q + 1]);
            }
        }
        lemma_sorted_store_unique(a1, b1);
        assert forall|p: int| 0 <= p < a.len() implies a[p] == b[p] by {
            if p > 0 {
                assert(a[p] == a1[p - 1] && b[p] == b1[p - 1]);
            }
        }
        assert(a =~= b);
    }
}

/// In a strictly sorted run of accounts, no two accounts share a name.
pub proof fn lemma_sorted_names_unique(s: Seq<Account>)
    requires
        spec_sorted(s),
    ensures
        forall|i: int, j: int| 0 <= i < j < s.len() ==> s[i].name@ != s[j].name@,
{
    assert forall|i: int, j: int| 0 <= i < j < s.len() implies s[i].name@ != s[j].name@ by {
        order::lemma_lex_lt_asym(s[i].key(), s[j].key());
    }
}

/// One row of the user-facing listing: the account's position, its name,
/// and its secret where the listing was asked to include secrets.
pub struct ListRow {
    pub index: usize,
    pub name: String,
    pub secret: Option<String>,
}

/// The rows render the accounts in order, position by position, with
/// secrets included exactly when asked for.
pub open spec fn rows_match(rows: Seq<ListRow>, accounts: Seq<Account>, with_secret: bool) -> bool {
    &&& rows.len() == accounts.len()
    &&& forall|i: int|
        0 <= i < rows.len() ==> {
            &&& (#[trigger] rows[i]).index == i
            &&& rows[i].name@ == accounts[i].name@
            &&& (with_secret ==> (rows[i].secret matches Some(s) && s@ == accounts[i].secret@))
            &&& (!with_secret ==> rows[i].secret is None)
        }
}

/// How an account is pointed out for code generation: by its exact name,
/// or by an interactively typed row index.
pub enum Selector {
    ByName(String),
    ByIndex(String),
}

/// One parsed command, as the command-line surface hands it to the store.
pub enum Command {
    List { secret: bool },
    Path,
    Add { name: String, secret: String },
    Remove { name: String },
    Clean,
    Get { name: Option<String>, no_copy: bool },
}

/// What a dispatched command asks of the surrounding program next: render
/// output, persist the store, report a failure, or gather the input a
/// suspended destructive operation awaits.
pub enum Step {
    /// Render these rows.
    ShowList(Vec<ListRow>),
    /// Print the backing file's location.
    ShowPath(String),
    /// An account was added: rewrite the backing file.
    Persist,
    /// The command cannot proceed; report the error.
    Failed(Error),
    /// The account at this position awaits removal confirmation.
    AwaitRemove(usize),
    /// Removing every account awaits confirmation; these rows show what
    /// would be lost, secrets included.
    AwaitClean(Vec<ListRow>),
    /// A code was asked for without a name: these rows await a typed row
    /// selection.
    AwaitSelection(Vec<ListRow>),
    /// A code was asked for by name: the account stands at this position.
    Resolved(usize),
}

/// The disk-backed store: the accounts, strictly sorted by name, and the
/// location of the backing file.
pub struct AccountArray {
    pub accounts: Vec<Account>,
    pub json_path: String,
}

impl AccountArray {
    /// The store's invariant: strictly sorted by name, hence duplicate-free.
    pub open spec fn wf(self) -> bool {
        spec_sorted(self.accounts@)
    }

    pub fn new(json_path: &str) -> (s: AccountArray)
        ensures
            s.wf(),
            s.accounts@.len() == 0,
            s.json_path@ == json_path@,
    {
        AccountArray { accounts: Vec::new(), json_path: json_path.to_owned() }
    }

    /// The backing file's location.
    pub fn path(&self) -> (p: String)
        ensures
            p@ == self.json_path@,
    {
        self.json_path.clone()
    }

    /// Binary search by exact name. `Ok` carries the account's position;
    /// `Err` carries the position where the name would be inserted, and says
    /// the name is absent.
    pub fn find(&self, name: &str) -> (r: Result<usize, usize>)
        requires
            self.wf(),
        ensures
            match r {
                Ok(i) => i < self.accounts@.len() && self.accounts@[i as int].name@ == name@,
                Err(i) => {
                    &&& i <= self.accounts@.len()
                    &&& forall|j: int|
                        0 <= j < self.accounts@.len() ==> (#[trigger] self.accounts@[j]).name@
                            != name@
                    &&& forall|j: int|
                        0 <= j < i ==> lex_lt((#[trigger] self.accounts@[j]).key(), utf8_bytes(name@))
                    &&& forall|j: int|
                        i <= j < self.accounts@.len() ==> lex_lt(
                            utf8_bytes(name@),
                            (#[trigger] self.accounts@[j]).key(),
                        )
                },
            },
    {
        let ghost target = utf8_bytes(name@);
        let mut lo: usize = 0;
        let mut hi: usize = self.accounts.len();
        while lo < hi
            invariant
                self.wf(),
                lo <= hi <= self.accounts@.len(),
                forall|j: int|
                    0 <= j < lo ==> lex_lt((#[trigger] self.accounts@[j]).key(), target),
                forall|j: int|
                    hi <= j < self.accounts@.len() ==> lex_lt(
                        target,
                        (#[trigger] self.accounts@[j]).key(),
                    ),
                target == utf8_bytes(name@),
            decreases hi - lo,
        {
            let mid = lo + (hi - lo) / 2;
            let a = &self.accounts[mid];
            match order::cmp_str(a.name.as_str(), name) {
                Rel::Eq => {
                    return Ok(mid);
                },
                Rel::Lt => {
                    proof {
                        assert forall|j: int| 0 <= j < mid + 1 implies lex_lt(
                            (#[trigger] self.accounts@[j]).key(),
                            target,
                        ) by {
                            if j < mid {
                                order::lemma_lex_lt_trans(
                                    self.accounts@[j].key(),
                                    self.accounts@[mid as int].key(),
                                    target,
                                );
                            }
                        }
                    }
                    lo = mid + 1;
                },
                Rel::Gt => {
                    proof {
                        assert forall|j: int| mid <= j < self.accounts@.len() implies lex_lt(
                            target,
                            (#[trigger] self.accounts@[j]).key(),
                        ) by {
                            if j > mid {
                                order::lemma_lex_lt_trans(
                                    target,
                                    self.accounts@[mid as int].key(),
                                    self.accounts@[j].key(),
                                );
                            }
                        }
                    }
                    hi = mid;
                },
            }
        }
        proof {
            assert forall|j: int| 0 <= j < self.accounts@.len() implies (
            #[trigger] self.accounts@[j]).name@ != name@ by {
                if j < lo {
                    order::lemma_lex_lt_asym(self.accounts@[j].key(), target);
                } else {
                    order::lemma_lex_lt_asym(target, self.accounts@[j].key());
                }
            }
        }
        Err(lo)
    }

    /// The row-indexed listing of all accounts in sorted order; secrets are
    /// included only when explicitly requested.
    pub fn list(&self, with_secret: bool) -> (rows: Vec<ListRow>)
        ensures
            rows_match(rows@, self.accounts@, with_secret),
    {
        let mut rows: Vec<ListRow> = Vec::new();
        let n = self.accounts.len();
        let mut i: usize = 0;
        while i < n
            invariant
                0 <= i <= n == self.accounts@.len(),
                rows_match(rows@, self.accounts@.take(i as int), with_secret),
            decreases n - i,
        {
            let a = &self.accounts[i];
            let secret = if with_secret {
                Some(a.secret.clone())
            } else {
                None
            };
            rows.push(ListRow { index: i, name: a.name.clone(), secret });
            proof {
                assert(self.accounts@.take(i + 1).drop_last() =~= self.accounts@.take(i as int));
                assert(self.accounts@.take(i + 1)[i as int] == self.accounts@[i as int]);
                assert forall|j: int| 0 <= j < rows@.len() implies {
                    &&& (#[trigger] rows@[j]).index == j
                    &&& rows@[j].name@ == self.accounts@.take(i + 1)[j].name@
                    &&& (with_secret ==> (rows@[j].secret matches Some(s) && s@
                        == self.accounts@.take(i + 1)[j].secret@))
                    &&& (!with_secret ==> rows@[j].secret is None)
                } by {
                    if j < i {
                        assert(rows@[j] == rows@.drop_last()[j]);
                        assert(self.accounts@.take(i + 1)[j] == self.accounts@.take(i as int)[j]);
                    }
                }
            }
            i = i + 1;
        }
        proof {
            assert(self.accounts@.take(n as int) =~= self.accounts@);
        }
        rows
    }

    /// Insert an account at its sorted position, unless its name is already
    /// taken; nothing changes then.
    fn insert_new(&mut self, acc: Account) -> (added: bool)
        requires
            old(self).wf(),
        ensures
            final(self).wf(),
            final(self).json_path == old(self).json_path,
            added <==> (forall|j: int|
                0 <= j < old(self).accounts@.len() ==> (#[trigger] old(self).accounts@[j]).name@
                    != acc.name@),
            !added ==> *final(self) == *old(self),
            added ==> exists|i: int|
                0 <= i <= old(self).accounts@.len() && final(self).accounts@ == old(
                    self,
                ).accounts@.insert(i, acc),
            added ==> final(self).accounts@.to_multiset() == old(
                self,
            ).accounts@.to_multiset().insert(acc),
    {
        let r = self.find(acc.name.as_str());
        match r {
            Ok(_) => false,
            Err(i) => {
                let ghost s = self.accounts@;
                let ghost pos = i as int;
                self.accounts.insert(i, acc);
                proof {
                    let t = self.accounts@;
                    s.insert_ensures(pos, acc);
                    assert(acc.key() == utf8_bytes(acc.name@));
                    assert forall|p: int, q: int| 0 <= p < q < t.len() implies lex_lt(
                        (#[trigger] t[p]).key(),
                        (#[trigger] t[q]).key(),
                    ) by {
                        if q < pos {
                            assert(t[p] == s[p] && t[q] == s[q]);
                        } else if p < pos && q == pos {
                            assert(t[p] == s[p] && t[q] == acc);
                        } else if p < pos && q > pos {
                            assert(t[p] == s[p] && t[q] == s[q - 1]);
                        } else if p == pos && q > pos {
                            assert(t[p] == acc && t[q] == s[q - 1]);
                        } else {
                            assert(t[p] == s[p - 1] && t[q] == s[q - 1]);
                        }
                    }
                    assert(t.remove(pos) =~= s);
                    t.to_multiset_ensures();
                    s.to_multiset_ensures();
                    assert(t.to_multiset().remove(acc) =~= s.to_multiset());
                    assert(t.contains(acc)) by {
                        assert(t[pos] == acc);
                    }
                    assert(t.to_multiset().count(acc) > 0);
                    assert(t.to_multiset() =~= s.to_multiset().insert(acc));
                }
                true
            },
        }
    }

    /// Validate the secret, then insert the account at its sorted position
    /// and report success; a malformed secret or an already-taken name is
    /// reported instead, and the store is left unchanged.
    pub fn add(&mut self, name: &str, secret: &str) -> (r: Result<(), Error>)
        requires
            old(self).wf(),
        ensures
            final(self).wf(),
            final(self).json_path == old(self).json_path,
            r is Ok <==> codec::spec_secret_valid(utf8_bytes(secret@)) && (forall|j: int|
                0 <= j < old(self).accounts@.len() ==> (#[trigger] old(self).accounts@[j]).name@
                    != name@),
            r is Err ==> *final(self) == *old(self),
            r matches Err(e) ==> (e == Error::InvalidSecret <==> !codec::spec_secret_valid(
                utf8_bytes(secret@),
            )),
            r matches Err(e) ==> (e == Error::DuplicateAccount <==> codec::spec_secret_valid(
                utf8_bytes(secret@),
            ) && (exists|j: int|
                0 <= j < old(self).accounts@.len() && (#[trigger] old(self).accounts@[j]).name@
                    == name@)),
            r is Ok ==> exists|i: int, a: Account|
                0 <= i <= old(self).accounts@.len() && a.name@ == name@ && a.secret@ == secret@
                    && final(self).accounts@ == old(self).accounts@.insert(i, a),
    {
        if let Err(_) = codec::decode(secret) {
            return Err(Error::InvalidSecret);
        }
        let acc = Account::new(name, secret);
        if self.insert_new(acc) {
            Ok(())
        } else {
            Err(Error::DuplicateAccount)
        }
    }

    /// Remove the account at a position, after the user confirms: a
    /// declined confirmation aborts with the store untouched, and a
    /// confirmed one removes exactly that account and hands it back as the
    /// last chance to note its secret.
    pub fn remove_idx(&mut self, index: usize, confirmation: &str) -> (r: Option<Account>)
        requires
            old(self).wf(),
            index < old(self).accounts@.len(),
        ensures
            final(self).wf(),
            final(self).json_path == old(self).json_path,
            input::spec_confirmed(confirmation@) ==> final(self).accounts@ == old(
                self,
            ).accounts@.remove(index as int),
            input::spec_confirmed(confirmation@) ==> (r matches Some(a) && a == old(
                self,
            ).accounts@[index as int]),
            !input::spec_confirmed(confirmation@) ==> *final(self) == *old(self) && r is None,
    {
        if input::is_confirmed(confirmation) {
            let ghost s = self.accounts@;
            let ghost pos = index as int;
            let acc = self.accounts.remove(index);
            proof {
                let t = self.accounts@;
                s.remove_ensures(pos);
                assert forall|p: int, q: int| 0 <= p < q < t.len() implies lex_lt(
                    (#[trigger] t[p]).key(),
                    (#[trigger] t[q]).key(),
                ) by {
                    if q < pos {
                        assert(t[p] == s[p] && t[q] == s[q]);
                    } else if p < pos {
                        assert(t[p] == s[p] && t[q] == s[q + 1]);
                    } else {
                        assert(t[p] == s[p + 1] && t[q] == s[q + 1]);
                    }
                }
            }
            Some(acc)
        } else {
            None
        }
    }

    /// Look an account up by name so its removal can be confirmed: the
    /// position when the name exists, the not-found error when it does not.
    /// The store is never touched.
    pub fn try_remove(&self, name: &str) -> (r: Result<usize, Error>)
        requires
            self.wf(),
        ensures
            r matches Ok(i) ==> i < self.accounts@.len() && self.accounts@[i as int].name@
                == name@,
            r matches Err(e) ==> e == Error::AccountNotFound,
            r is Ok <==> exists|j: int|
                0 <= j < self.accounts@.len() && (#[trigger] self.accounts@[j]).name@ == name@,
    {
        match self.find(name) {
            Ok(i) => Ok(i),
            Err(_) => Err(Error::AccountNotFound),
        }
    }

    /// Replace the store with an empty collection, after the user confirms;
    /// a declined confirmation leaves it untouched.
    pub fn try_clean(&mut self, confirmation: &str) -> (cleaned: bool)
        requires
            old(self).wf(),
        ensures
            final(self).wf(),
            final(self).json_path == old(self).json_path,
            cleaned == input::spec_confirmed(confirmation@),
            cleaned ==> final(self).accounts@.len() == 0,
            !cleaned ==> *final(self) == *old(self),
    {
        if input::is_confirmed(confirmation) {
            self.accounts.clear();
            true
        } else {
            false
        }
    }

    /// Resolve which account a code is wanted for: an explicit name is
    /// looked up exactly, and an interactively typed row selection is read
    /// as a decimal index and checked against the listing's range.
    pub fn get(&self, selector: &Selector) -> (r: Result<usize, Error>)
        requires
            self.wf(),
        ensures
            r matches Ok(i) ==> i < self.accounts@.len(),
            selector matches Selector::ByName(n) ==> {
                &&& (r matches Ok(i) ==> self.accounts@[i as int].name@ == n@)
                &&& (r is Ok <==> exists|j: int|
                    0 <= j < self.accounts@.len() && (#[trigger] self.accounts@[j]).name@ == n@)
                &&& (r matches Err(e) ==> e == Error::AccountNotFound)
            },
            selector matches Selector::ByIndex(line) ==> {
                &&& (r matches Ok(i) ==> input::spec_selection(line@) == Some(i as int))
                &&& (r is Ok <==> (input::spec_selection(line@) matches Some(v) && v
                    < self.accounts@.len()))
                &&& (r matches Err(e) ==> e == Error::InvalidIndex)
            },
    {
        match selector {
            Selector::ByName(name) => {
                match self.find(name.as_str()) {
                    Ok(i) => Ok(i),
                    Err(_) => Err(Error::AccountNotFound),
                }
            },
            Selector::ByIndex(line) => {
                match input::parse_selection(line.as_str()) {
                    Some(i) => {
                        if i < self.accounts.len() {
                            Ok(i)
                        } else {
                            Err(Error::InvalidIndex)
                        }
                    },
                    None => Err(Error::InvalidIndex),
                }
            },
        }
    }

    /// Install the records read from the backing file, sorting them by
    /// name. A document in which two records share a name does not describe
    /// a well-formed store and is fatal, like any other corrupt document:
    /// recovery could silently drop a secret.
    pub fn load_from(&mut self, records: Vec<Account>) -> (r: Result<(), Error>)
        ensures
            final(self).wf(),
            final(self).json_path == old(self).json_path,
            r is Ok ==> final(self).accounts@.to_multiset() == records@.to_multiset(),
            r matches Err(e) ==> e == Error::CorruptStore,
            r is Ok <==> (forall|i: int, j: int|
                0 <= i < j < records@.len() ==> (#[trigger] records@[i]).name@ != (
                #[trigger] records@[j]).name@),
    {
        self.accounts.clear();
        let mut rest = records;
        let ghost orig = rest@;
        let ghost mut k: int = 0;
        proof {
            assert(orig.skip(0) =~= orig);
            assert(orig.take(0) =~= Seq::<Account>::empty());
            orig.take(0).to_multiset_ensures();
            self.accounts@.to_multiset_ensures();
            assert(self.accounts@.to_multiset() =~= orig.take(0).to_multiset());
        }
        while rest.len() > 0
            invariant
                self.wf(),
                self.json_path == old(self).json_path,
                orig == records@,
                0 <= k <= orig.len(),
                rest@ == orig.skip(k),
                self.accounts@.to_multiset() == orig.take(k).to_multiset(),
                forall|i: int, j: int|
                    0 <= i < j < k ==> (#[trigger] orig[i]).name@ != (#[trigger] orig[j]).name@,
            decreases rest@.len(),
        {
            let acc = rest.remove(0);
            proof {
                assert(orig.skip(k)[0] == orig[k]);
                assert(orig.skip(k).remove(0) =~= orig.skip(k + 1));
            }
            let ghost before = self.accounts@;
            let added = self.insert_new(acc);
            if !added {
                proof {
                    let j0 = choose|j0: int|
                        0 <= j0 < before.len() && (#[trigger] before[j0]).name@ == acc.name@;
                    before.to_multiset_ensures();
                    orig.take(k).to_multiset_ensures();
                    assert(before.contains(before[j0]));
                    assert(orig.take(k).to_multiset().count(before[j0]) > 0);
                    assert(orig.take(k).contains(before[j0]));
                    let i0 = choose|i0: int|
                        0 <= i0 < orig.take(k).len() && orig.take(k)[i0] == before[j0];
                    assert(orig[i0].name@ == orig[k].name@);
                    assert(!(forall|i: int, j: int|
                        0 <= i < j < orig.len() ==> (#[trigger] orig[i]).name@ != (
                        #[trigger] orig[j]).name@));
                }
                return Err(Error::CorruptStore);
            }
            proof {
                assert(orig.take(k + 1).drop_last() =~= orig.take(k));
                assert(orig.take(k + 1) =~= orig.take(k).push(orig[k]));
                orig.take(k).to_multiset_ensures();
                assert(orig.take(k + 1).to_multiset() == orig.take(k).to_multiset().insert(
                    orig[k],
                ));
                assert(self.accounts@.to_multiset() == orig.take(k + 1).to_multiset());
                assert forall|i: int, j: int| 0 <= i < j < k + 1 implies (
                #[trigger] orig[i]).name@ != (#[trigger] orig[j]).name@ by {
                    if j == k {
                        before.to_multiset_ensures();
                        orig.take(k).to_multiset_ensures();
                        assert(orig.take(k).contains(orig.take(k)[i]));
                        assert(before.to_multiset().count(orig[i]) > 0);
                        assert(before.contains(orig[i]));
                        let idx = choose|idx: int|
                            0 <= idx < before.len() && before[idx] == orig[i];
                        assert(before[idx].name@ != acc.name@);
                    }
                }
                k = k + 1;
            }
        }
        proof {
            assert(orig.take(k) =~= orig);
            assert(rest@.len() == 0);
            assert(orig.skip(k).len() == 0);
            assert(k == orig.len());
        }
        Ok(())
    }

    /// Dispatch one parsed command. Listing, the path, and a by-name code
    /// request leave the store untouched; adding mutates it; removal,
    /// cleaning and interactive selection suspend awaiting further input.
    pub fn match_cmd(&mut self, command: Command) -> (step: Step)
        requires
            old(self).wf(),
        ensures
            final(self).wf(),
            final(self).json_path == old(self).json_path,
            !(command matches Command::Add { .. }) ==> *final(self) == *old(self),
            command matches Command::List { secret } ==> (step matches Step::ShowList(rows)
                && rows_match(rows@, final(self).accounts@, secret)),
            command matches Command::Path ==> (step matches Step::ShowPath(p)
                && p@ == final(self).json_path@),
            command matches Command::Add { name, secret } ==> {
                &&& (step is Persist <==> codec::spec_secret_valid(utf8_bytes(secret@)) && (
                forall|j: int|
                    0 <= j < old(self).accounts@.len() ==> (#[trigger] old(
                        self,
                    ).accounts@[j]).name@ != name@))
                &&& (step is Persist ==> exists|i: int, a: Account|
                    0 <= i <= old(self).accounts@.len() && a.name@ == name@ && a.secret@
                        == secret@ && final(self).accounts@ == old(self).accounts@.insert(i, a))
                &&& (step matches Step::Failed(e) ==> *final(self) == *old(self) && (e
                    == Error::InvalidSecret <==> !codec::spec_secret_valid(utf8_bytes(secret@)))
                    && (e == Error::DuplicateAccount <==> codec::spec_secret_valid(
                    utf8_bytes(secret@),
                ) && (exists|j: int|
                    0 <= j < old(self).accounts@.len() && (#[trigger] old(
                        self,
                    ).accounts@[j]).name@ == name@)))
                &&& (step is Persist || step is Failed)
            },
            command matches Command::Remove { name } ==> {
                &&& (step matches Step::AwaitRemove(i) ==> i < final(self).accounts@.len()
                    && final(self).accounts@[i as int].name@ == name@)
                &&& (step is AwaitRemove <==> exists|j: int|
                    0 <= j < final(self).accounts@.len() && (#[trigger] final(self).accounts@[j]).name@ == name@)
                &&& (step matches Step::Failed(e) ==> e == Error::AccountNotFound)
                &&& (step is AwaitRemove || step is Failed)
            },
            command matches Command::Clean ==> (step matches Step::AwaitClean(rows) && rows_match(
                rows@,
                final(self).accounts@,
                true,
            )),
            (exists|c: bool| command == (Command::Get { name: None, no_copy: c })) ==> (step
                matches Step::AwaitSelection(rows) && rows_match(
                rows@,
                final(self).accounts@,
                false,
            )),
            forall|n: String, c: bool|
                command == (Command::Get { name: Some(n), no_copy: c }) ==> {
                    &&& (step matches Step::Resolved(i) ==> i < final(self).accounts@.len()
                        && final(self).accounts@[i as int].name@ == n@)
                    &&& (step is Resolved <==> exists|j: int|
                        0 <= j < final(self).accounts@.len() && (#[trigger] final(self).accounts@[j]).name@ == n@)
                    &&& (step matches Step::Failed(e) ==> e == Error::AccountNotFound)
                    &&& (step is Resolved || step is Failed)
                },
    {
        match command {
            Command::List { secret } => Step::ShowList(self.list(secret)),
            Command::Path => Step::ShowPath(self.path()),
            Command::Add { name, secret } => {
                match self.add(name.as_str(), secret.as_str()) {
                    Ok(_) => Step::Persist,
                    Err(e) => Step::Failed(e),
                }
            },
            Command::Remove { name } => {
                match self.try_remove(name.as_str()) {
                    Ok(i) => Step::AwaitRemove(i),
                    Err(e) => Step::Failed(e),
                }
            },
            Command::Clean => Step::AwaitClean(self.list(true)),
            Command::Get { name: None, no_copy: _ } => Step::AwaitSelection(self.list(false)),
            Command::Get { name: Some(name), no_copy: _ } => {
                match self.find(name.as_str()) {
                    Ok(i) => Step::Resolved(i),
                    Err(_) => Step::Failed(Error::AccountNotFound),
                }
            },
        }
    }
}

} // verus!
