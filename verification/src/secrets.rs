//! The CurseForge key kept in the system keychain: where it is kept, and
//! what each answer of the keychain means for the user.
use crate::error::AppError;
use crate::text::join2;
use vstd::prelude::*;

verus! {

/// Where the CurseForge key lives in the system keychain.
pub struct SecretStore {
    service: String,
    account: String,
}

impl SecretStore {
    pub closed spec fn service_view(&self) -> Seq<char> {
        self.service@
    }

    pub closed spec fn account_view(&self) -> Seq<char> {
        self.account@
    }

    /// Where the CurseForge key is kept in the keychain.
    pub fn new() -> (r: SecretStore)
        ensures
            r.service_view() == "studio.mosaic.modpacks"@,
            r.account_view() == "curseforge-api-key"@,
    {
        SecretStore {
            service: String::from_str("studio.mosaic.modpacks"),
            account: String::from_str("curseforge-api-key"),
        }
    }

    /// The keychain service name.
    pub fn service(&self) -> (r: &str)
        ensures
            r@ == self.service_view(),
    {
        self.service.as_str()
    }

    /// The keychain account name.
    pub fn account(&self) -> (r: &str)
        ensures
            r@ == self.account_view(),
    {
        self.account.as_str()
    }
}

/// A failed keychain operation: whether the keychain simply had no entry,
/// and the keychain's description of the failure.
pub struct KeychainFailure {
    pub no_entry: bool,
    pub text: String,
}

pub open spec fn failed_with(r: Result<(), AppError>, prefix: Seq<char>, text: Seq<char>) -> bool {
    match r {
        Err(AppError::Message(m)) => m@ == prefix + text,
        Ok(_) => false,
    }
}

/// The keychain itself could not be opened.
pub fn keychain_unavailable(failure: &KeychainFailure) -> (r: AppError)
    ensures
        r matches AppError::Message(m) && m@ == "O cofre do sistema não está disponível: "@ + failure.text@,
{
    AppError::Message(join2("O cofre do sistema não está disponível: ", failure.text.as_str()))
}

/// The stored key, from what reading the keychain gave: no entry means no
/// key.
pub fn stored_key(read: Result<String, KeychainFailure>) -> (r: Result<Option<String>, AppError>)
    ensures
        match read {
            Ok(v) => r == Ok::<Option<String>, AppError>(Some(v)),
            Err(f) => if f.no_entry {
                r == Ok::<Option<String>, AppError>(None)
            } else {
                r matches Err(AppError::Message(m)) && m@ == "Não foi possível ler a chave no cofre do sistema: "@
                    + f.text@
            },
        },
{
    match read {
        Ok(value) => Ok(Some(value)),
        Err(failure) => {
            if failure.no_entry {
                Ok(None)
            } else {
                Err(
                    AppError::Message(
                        join2("Não foi possível ler a chave no cofre do sistema: ", failure.text.as_str()),
                    ),
                )
            }
        },
    }
}

/// What writing the key gave.
pub fn write_outcome(write: Result<(), KeychainFailure>) -> (r: Result<(), AppError>)
    ensures
        match write {
            Ok(_) => r is Ok,
            Err(f) => failed_with(r, "Não foi possível proteger a chave no cofre do sistema: "@, f.text@),
        },
{
    match write {
        Ok(()) => Ok(()),
        Err(failure) => Err(
            AppError::Message(
                join2("Não foi possível proteger a chave no cofre do sistema: ", failure.text.as_str()),
            ),
        ),
    }
}

/// A written key counts as saved only when reading it back gives the same
/// key.
pub fn confirm_saved(value: &str, read_back: Result<String, KeychainFailure>) -> (r: Result<(), AppError>)
    ensures
        match read_back {
            Ok(saved) => if saved@ == value@ {
                r is Ok
            } else {
                failed_with(r, "O cofre do sistema não confirmou a chave salva."@, Seq::empty())
            },
            Err(f) => failed_with(r, "A chave foi enviada ao cofre, mas não pôde ser confirmada: "@, f.text@),
        },
{
    match read_back {
        Ok(saved) => {
            if crate::text::str_equal(saved.as_str(), value) {
                Ok(())
            } else {
                let r = Err(AppError::message("O cofre do sistema não confirmou a chave salva."));
                assert("O cofre do sistema não confirmou a chave salva."@ + Seq::<char>::empty()
                    =~= "O cofre do sistema não confirmou a chave salva."@);
                r
            }
        },
        Err(failure) => Err(
            AppError::Message(
                join2("A chave foi enviada ao cofre, mas não pôde ser confirmada: ", failure.text.as_str()),
            ),
        ),
    }
}

/// What removing the key gave: a key that was not there counts as removed.
pub fn clear_outcome(delete: Result<(), KeychainFailure>) -> (r: Result<(), AppError>)
    ensures
        match delete {
            Ok(_) => r is Ok,
            Err(f) => if f.no_entry {
                r is Ok
            } else {
                failed_with(r, "Não foi possível remover a chave do cofre: "@, f.text@)
            },
        },
{
    match delete {
        Ok(()) => Ok(()),
        Err(failure) => {
            if failure.no_entry {
                Ok(())
            } else {
                Err(AppError::Message(join2("Não foi possível remover a chave do cofre: ", failure.text.as_str())))
            }
        },
    }
}

} // verus!
