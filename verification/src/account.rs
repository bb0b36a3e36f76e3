//! Accounts of a transaction generator: an identifier, a key pair and the
//! nonce of the account's last transaction, and how accounts are named on
//! disk.

use crate::account_id::AccountId;
use vstd::prelude::*;

verus! {

/// The text of the public key that belongs to the secret key written as
/// `secret_key`, or `None` where `secret_key` is not the text of a secret
/// key. Both are written as the key's curve, a colon and the key in base 58.
pub uninterp spec fn spec_public_key(secret_key: Seq<char>) -> Option<Seq<char>>;

/// `near_crypto::SecretKey`'s `from_str`, `public_key` and `to_string` of
/// the outcome: parses the text of a secret key and writes out the public
/// key that belongs to it. The result depends on the text alone. A text
/// that does not parse gives `None`.
#[verifier::external_body]
fn derive_public_key(secret_key: &str) -> (r: Option<String>)
    ensures
        (match r {
            Some(public_key) => Some(public_key@),
            None => None,
        }) == spec_public_key(secret_key@),
{
    match secret_key.parse::<near_crypto::SecretKey>() {
        Ok(key) => Some(key.public_key().to_string()),
        Err(_) => None,
    }
}

/// `String::push_str` of the standard library: appends `tail` to `text`.
#[verifier::external_body]
fn push_str(text: &mut String, tail: &str)
    ensures
        final(text)@ == old(text)@ + tail@,
{
    text.push_str(tail)
}

/// What an account holds.
pub struct AccountView {
    pub id: Seq<char>,
    pub public_key: Seq<char>,
    pub secret_key: Seq<char>,
    pub nonce: u64,
}

/// An account with its keys. The keys are held as text.
#[derive(Clone, Debug, PartialEq, Eq)]
pub struct Account {
    pub id: AccountId,
    pub public_key: String,
    pub secret_key: String,
    /// A new transaction must have a nonce bigger than this.
    pub nonce: u64,
}

impl View for Account {
    type V = AccountView;

    open spec fn view(&self) -> AccountView {
        AccountView {
            id: self.id.name@,
            public_key: self.public_key@,
            secret_key: self.secret_key@,
            nonce: self.nonce,
        }
    }
}

impl Account {
    /// The account with the given keys.
    pub fn with_keys(id: AccountId, public_key: String, secret_key: String, nonce: u64) -> (account:
        Account)
        ensures
            account@ == (AccountView {
                id: id.name@,
                public_key: public_key@,
                secret_key: secret_key@,
                nonce,
            }),
    {
        Account { id, public_key, secret_key, nonce }
    }

    /// The account with the given secret key and the public key that
    /// belongs to it. There is none where `secret_key` is not the text of a
    /// secret key.
    pub fn new(id: AccountId, secret_key: String, nonce: u64) -> (r: Option<Account>)
        ensures
            match spec_public_key(secret_key@) {
                Some(public_key) => r matches Some(account) && account@ == (AccountView {
                    id: id.name@,
                    public_key,
                    secret_key: secret_key@,
                    nonce,
                }),
                None => r is None,
            },
    {
        match derive_public_key(secret_key.as_str()) {
            Some(public_key) => Some(Account::with_keys(id, public_key, secret_key, nonce)),
            None => None,
        }
    }

    /// The name of the file that holds the account: its identifier
    /// followed by `.json`.
    pub fn file_name(&self) -> (name: String)
        ensures
            name@ == self.id.name@ + ".json"@,
    {
        let mut name = self.id.name.clone();
        push_str(&mut name, ".json");
        name
    }
}

/// Whether a directory entry may hold an account: it is a file and its
/// extension is `json`.
pub fn is_account_file(is_file: bool, extension: Option<&str>) -> (r: bool)
    ensures
        r == (is_file && match extension {
            Some(ext) => ext@ == "json"@,
            None => false,
        }),
{
    if !is_file {
        return false;
    }
    match extension {
        Some(ext) => ext.to_owned() == "json".to_owned(),
        None => false,
    }
}

} // verus!
