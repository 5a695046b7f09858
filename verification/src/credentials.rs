//! The accounts whose passwords the keyring of the system holds.

use crate::fs_source::opt_str;
use crate::paths::{is_joined_path, join_path};
use crate::pattern::contains_text;
use crate::text::{lemma_texts_push, owned, same, texts};
use crate::text_set::added;
use crate::pieces::{lemma_kept_places, rises};
use vstd::prelude::*;
use vstd::string::*;

verus! {

/// The name under which the keyring holds the passwords.
pub const SERVICE: &'static str = "htldev";

/// The file in which the names of the accounts are kept.
pub fn accounts_path(app_data_dir: &str) -> (r: String)
    ensures
        is_joined_path(app_data_dir@, "accounts.json"@, r@),
{
    join_path(app_data_dir, "accounts.json")
}

/// Why a value could not be written as JSON.
#[verifier::external_type_specification]
#[verifier::external_body]
pub struct ExJsonError(serde_json::Error);

/// The names that a JSON text lists, or why it is not a list of names.
pub uninterp spec fn listed_names(data: Seq<char>) -> Result<Seq<Seq<char>>, Seq<char>>;

/// The JSON text that lists names.
pub uninterp spec fn names_json(names: Seq<Seq<char>>) -> Seq<char>;

/// A list of names that was read, or why it was not, by its texts.
pub open spec fn names_view(r: Result<Vec<String>, String>) -> Result<Seq<Seq<char>>, Seq<char>> {
    match r {
        Ok(names) => Ok(texts(names@)),
        Err(cause) => Err(cause@),
    }
}

/// `serde_json::from_str`, to a list of strings: the strings, or the text of an error,
/// which depend on the JSON text alone.
#[verifier::external_body]
fn parse_names(data: &str) -> (r: Result<Vec<String>, String>)
    ensures
        names_view(r) == listed_names(data@),
{
    serde_json::from_str(data).map_err(|e| e.to_string())
}

/// `serde_json::to_string`, of a list of strings: a text that depends on the strings
/// alone, and from which `serde_json::from_str` reads them back. Of such a list it never
/// fails.
#[verifier::external_body]
fn write_names(names: &Vec<String>) -> (r: Result<String, serde_json::Error>)
    ensures
        r is Ok,
        r matches Ok(text) ==> text@ == names_json(texts(names@)),
        r matches Ok(text) ==> listed_names(text@) is Ok,
        r matches Ok(text) ==> listed_names(text@)->Ok_0 == texts(names@),
{
    serde_json::to_string(names)
}

/// The accounts that a file lists, or why it cannot be read; none where there is no file.
pub open spec fn listed(data: Option<Seq<char>>) -> Result<Seq<Seq<char>>, Seq<char>> {
    match data {
        Some(text) => listed_names(text),
        None => Ok(seq![]),
    }
}

/// The accounts that a file lists, or none where it cannot be read as a list.
pub open spec fn listed_or_none(data: Option<Seq<char>>) -> Seq<Seq<char>> {
    match listed(data) {
        Ok(names) => names,
        Err(_) => seq![],
    }
}

/// The accounts that a file lists, or why its text is not a list of names.
pub fn list(data: Option<&str>) -> (r: Result<Vec<String>, String>)
    ensures
        names_view(r) == listed(opt_str(data)),
{
    match data {
        Some(text) => parse_names(text),
        None => {
            let names: Vec<String> = Vec::new();
            assert(texts(names@) =~= Seq::<Seq<char>>::empty());
            Ok(names)
        },
    }
}

/// The accounts that a file lists, or none where it cannot be read as a list.
fn list_or_none(data: Option<&str>) -> (r: Vec<String>)
    ensures
        texts(r@) == listed_or_none(opt_str(data)),
{
    match list(data) {
        Ok(names) => names,
        Err(_) => {
            let names: Vec<String> = Vec::new();
            assert(texts(names@) =~= Seq::<Seq<char>>::empty());
            names
        },
    }
}

/// Why credentials were not stored or not removed.
#[derive(Debug, Clone, Copy, PartialEq, Eq, Structural)]
pub enum CredentialError {
    /// The keyring did not take the password.
    NotStored,
    /// The keyring did not give the password up.
    NotRemoved,
}

/// The message of an error.
pub open spec fn credential_message(error: CredentialError) -> Seq<char> {
    match error {
        CredentialError::NotStored => "save password to keychain"@,
        CredentialError::NotRemoved => "remove password from keychain"@,
    }
}

impl CredentialError {
    /// The message of the error.
    pub fn message(self) -> (r: &'static str)
        ensures
            r@ == credential_message(self),
    {
        match self {
            CredentialError::NotStored => "save password to keychain",
            CredentialError::NotRemoved => "remove password from keychain",
        }
    }
}

/// The accounts with another one; nothing where it is among them already.
pub fn with_account(accounts: Vec<String>, username: &str) -> (r: Option<Vec<String>>)
    ensures
        r is Some == !texts(accounts@).contains(username@),
        r matches Some(list) ==> texts(list@) == added(texts(accounts@), username@),
{
    if contains_text(&accounts, username) {
        return None;
    }
    let ghost before = accounts@;
    let mut list: Vec<String> = accounts;
    list.push(owned(username));
    proof {
        lemma_texts_push(before, list@.last());
    }
    Some(list)
}

/// What to write to the file of accounts once the keyring was handed a password: nothing
/// where the account is listed already. It is an error where the keyring did not take
/// the password.
pub fn save(stored: bool, data: Option<&str>, username: &str) -> (r: Result<
    Option<String>,
    CredentialError,
>)
    ensures
        !stored ==> r == Err::<Option<String>, CredentialError>(CredentialError::NotStored),
        stored ==> r is Ok,
        r matches Ok(None) ==> listed_or_none(opt_str(data)).contains(username@),
        r matches Ok(Some(text)) ==> {
            let names = added(listed_or_none(opt_str(data)), username@);
            &&& !listed_or_none(opt_str(data)).contains(username@)
            &&& text@ == names_json(names)
            &&& listed_names(text@) == Ok::<Seq<Seq<char>>, Seq<char>>(names)
        },
{
    if !stored {
        return Err(CredentialError::NotStored);
    }
    match with_account(list_or_none(data), username) {
        Some(names) => match write_names(&names) {
            Ok(text) => Ok(Some(text)),
            Err(_) => Err(CredentialError::NotStored),
        },
        None => Ok(None),
    }
}

/// Whether an account is another one.
pub open spec fn is_other(username: Seq<char>) -> spec_fn(Seq<char>) -> bool {
    |a: Seq<char>| a != username
}

/// The accounts without one.
pub open spec fn without_account(accounts: Seq<Seq<char>>, username: Seq<char>) -> Seq<Seq<char>> {
    accounts.filter(is_other(username))
}

/// The accounts without one.
pub fn drop_account(accounts: Vec<String>, username: &str) -> (r: Vec<String>)
    ensures
        texts(r@) == without_account(texts(accounts@), username@),
{
    let ghost all = texts(accounts@);
    let ghost p = is_other(username@);
    let mut out: Vec<String> = Vec::new();
    let mut i: usize = 0;
    proof {
        reveal(Seq::filter);
        assert(texts(out@) =~= all.take(0).filter(p));
    }
    while i < accounts.len()
        invariant
            all == texts(accounts@),
            p == is_other(username@),
            i <= accounts@.len(),
            texts(out@) == all.take(i as int).filter(p),
        decreases accounts@.len() - i,
    {
        proof {
            reveal(Seq::filter);
            assert(all.take(i + 1).drop_last() =~= all.take(i as int));
            assert(all.take(i + 1).last() == accounts@[i as int]@);
        }
        if !same(accounts[i].as_str(), username) {
            let ghost before = out@;
            out.push(accounts[i].clone());
            proof {
                lemma_texts_push(before, out@.last());
            }
        }
        i += 1;
    }
    assert(all.take(i as int) =~= all);
    out
}

/// What the keyring answers when a password is to be removed.
#[derive(Debug, Clone, Copy, PartialEq, Eq, Structural)]
pub enum Removal {
    /// It was removed.
    Removed,
    /// There was none.
    Missing,
    /// It is still there, as far as is known.
    Failed,
}

/// What to write to the file of accounts once the keyring was asked to remove a password:
/// the other accounts. It is an error where the keyring did not give the password up, and
/// the list stays as it is.
pub fn delete(removal: Removal, data: Option<&str>, username: &str) -> (r: Result<
    String,
    CredentialError,
>)
    ensures
        removal == Removal::Failed ==> r == Err::<String, CredentialError>(
            CredentialError::NotRemoved,
        ),
        removal != Removal::Failed ==> r is Ok,
        r matches Ok(text) ==> {
            let names = without_account(listed_or_none(opt_str(data)), username@);
            &&& text@ == names_json(names)
            &&& listed_names(text@) == Ok::<Seq<Seq<char>>, Seq<char>>(names)
        },
{
    if removal == Removal::Failed {
        return Err(CredentialError::NotRemoved);
    }
    match write_names(&drop_account(list_or_none(data), username)) {
        Ok(text) => Ok(text),
        Err(_) => Err(CredentialError::NotRemoved),
    }
}

/// The first of the places that gives a credential: the command line, the environment,
/// what was stored. Nothing where it has to be asked for.
pub fn choose_credential(arg: Option<String>, env: Option<String>, stored: Option<String>) -> (r:
    Option<String>)
    ensures
        r == (if arg is Some {
            arg
        } else if env is Some {
            env
        } else {
            stored
        }),
{
    match arg {
        Some(value) => Some(value),
        None => match env {
            Some(value) => Some(value),
            None => stored,
        },
    }
}

/// An account that was deleted is not listed, and every other one still is.
pub proof fn law_deleted_account_is_gone(accounts: Seq<Seq<char>>, username: Seq<char>)
    ensures
        !without_account(accounts, username).contains(username),
        forall|a: Seq<char>|
            a != username ==> (#[trigger] without_account(accounts, username).contains(a)
                <==> accounts.contains(a)),
    decreases accounts.len(),
{
    let p = is_other(username);
    reveal(Seq::filter);
    if accounts.len() > 0 {
        let before = accounts.drop_last();
        law_deleted_account_is_gone(before, username);
        let rest = without_account(before, username);
        let all = without_account(accounts, username);
        assert(rest == before.filter(p));
        assert(all == (if p(accounts.last()) {
            rest.push(accounts.last())
        } else {
            rest
        }));
        assert forall|a: Seq<char>| #[trigger] all.contains(a) <==> (rest.contains(a) || (a
            == accounts.last() && p(a))) by {
            if all.contains(a) {
                let k = choose|k: int| 0 <= k < all.len() && all[k] == a;
                if k < rest.len() {
                    assert(rest[k] == a);
                }
            }
            if rest.contains(a) {
                let k = choose|k: int| 0 <= k < rest.len() && rest[k] == a;
                assert(all[k] == a);
            }
            if a == accounts.last() && p(a) {
                assert(all[rest.len() as int] == a);
            }
        }
        assert forall|a: Seq<char>| #[trigger] accounts.contains(a) <==> (before.contains(a) || a
            == accounts.last()) by {
            if accounts.contains(a) {
                let k = choose|k: int| 0 <= k < accounts.len() && accounts[k] == a;
                if k < before.len() {
                    assert(before[k] == a);
                }
            }
            if before.contains(a) {
                let k = choose|k: int| 0 <= k < before.len() && before[k] == a;
                assert(accounts[k] == a);
            }
            if a == accounts.last() {
                assert(accounts[accounts.len() - 1] == a);
            }
        }
        assert forall|a: Seq<char>|
            a != username implies (#[trigger] without_account(accounts, username).contains(a)
            <==> accounts.contains(a)) by {
            assert(rest.contains(a) <==> before.contains(a));
        }
    } else {
        assert(without_account(accounts, username) =~= seq![]);
    }
}

/// Once an account was stored it is listed, those before it are listed as they were, and
/// storing it again changes nothing.
pub proof fn law_saved_account_is_listed(accounts: Seq<Seq<char>>, username: Seq<char>)
    ensures
        added(accounts, username).contains(username),
        accounts.is_prefix_of(added(accounts, username)),
        accounts.contains(username) ==> added(accounts, username) == accounts,
        added(added(accounts, username), username) == added(accounts, username),
{
    assert(accounts.push(username)[accounts.len() as int] == username);
}

/// The accounts that are left after one was deleted are in the order that they were in,
/// each as often as before.
pub proof fn law_other_accounts_stay_in_order(accounts: Seq<Seq<char>>, username: Seq<char>)
    ensures
        exists|at: Seq<int>|
            {
                &&& #[trigger] rises(at)
                &&& at.len() == without_account(accounts, username).len()
                &&& forall|k: int|
                    0 <= k < at.len() ==> 0 <= #[trigger] at[k] < accounts.len() && without_account(
                        accounts,
                        username,
                    )[k] == accounts[at[k]] && accounts[at[k]] != username
                &&& forall|i: int|
                    0 <= i < accounts.len() && #[trigger] accounts[i] != username ==> at.contains(i)
            },
{
    let at = lemma_kept_places(accounts, is_other(username));
    assert(rises(at));
}

/// A file that is not there lists no accounts, and neither does one that cannot be read
/// where that is no matter.
pub proof fn law_missing_file_lists_nothing(data: Option<Seq<char>>)
    ensures
        data is None ==> listed(data) == Ok::<Seq<Seq<char>>, Seq<char>>(seq![]),
        data matches Some(text) ==> listed(data) == listed_names(text),
        listed(data) is Err ==> listed_or_none(data).len() == 0,
        listed(data) matches Ok(names) ==> listed_or_none(data) == names,
{
}

} // verus!
