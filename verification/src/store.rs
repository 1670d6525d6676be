//! The persisted entities: a named shared secret and the ordered list of
//! them held in the configuration.

use vstd::prelude::*;
use vstd::string::StringExecFns;

use crate::codegen::CodeError;
use crate::codegen::generate_steam_guard_code;
use crate::codegen::spec_generate_code;

verus! {

/// One stored entry: a display name together with the base64 text of the
/// shared secret.
#[derive(Debug)]
pub struct Secret {
    pub name: String,
    pub shared_secret: String,
}

/// The mathematical value of a [`Secret`]: both fields as character
/// sequences.
pub struct SecretView {
    pub name: Seq<char>,
    pub shared_secret: Seq<char>,
}

impl View for Secret {
    type V = SecretView;

    open spec fn view(&self) -> SecretView {
        SecretView { name: self.name@, shared_secret: self.shared_secret@ }
    }
}

impl Clone for Secret {
    fn clone(&self) -> (res: Secret)
        ensures
            res@ == self@,
    {
        Secret { name: self.name.clone(), shared_secret: self.shared_secret.clone() }
    }
}

/// The whole configuration: the ordered list of stored secrets.
pub struct Config {
    pub secrets: Vec<Secret>,
}

/// The mathematical value of a secret list: each entry's view, in order.
pub open spec fn secrets_view(s: Seq<Secret>) -> Seq<SecretView> {
    s.map_values(|x: Secret| x@)
}

impl View for Config {
    type V = Seq<SecretView>;

    open spec fn view(&self) -> Seq<SecretView> {
        secrets_view(self.secrets@)
    }
}

impl Default for Config {
    fn default() -> (c: Config)
        ensures
            c@ == Seq::<SecretView>::empty(),
    {
        Config::new()
    }
}

impl Config {
    /// A configuration holding no secrets.
    pub fn new() -> (c: Config)
        ensures
            c@ == Seq::<SecretView>::empty(),
    {
        let c = Config { secrets: Vec::new() };
        proof {
            assert(c@ =~= Seq::<SecretView>::empty());
        }
        c
    }

    /// The full ordered list of stored secrets.
    pub fn get_secrets(&self) -> (r: Vec<Secret>)
        ensures
            secrets_view(r@) == self@,
    {
        let mut out: Vec<Secret> = Vec::new();
        let mut k: usize = 0;
        while k < self.secrets.len()
            invariant
                k <= self.secrets.len(),
                out@.len() == k as int,
                forall|m: int| 0 <= m < k ==> out@[m]@ == self.secrets@[m]@,
            decreases self.secrets.len() - k,
        {
            out.push(self.secrets[k].clone());
            k += 1;
        }
        proof {
            assert(secrets_view(out@) =~= self@);
        }
        out
    }

    /// Appends a named secret after validating that it can generate a
    /// code at the given time; an invalid secret leaves the list
    /// unchanged and reports the error. Returns the updated list.
    pub fn add_secret(&mut self, name: String, shared_secret: String, time: u64) -> (r: Result<
        Vec<Secret>,
        CodeError,
    >)
        ensures
            match r {
                Ok(list) => spec_generate_code(shared_secret@, time) is Ok && final(self)@ == old(
                    self,
                )@.push(SecretView { name: name@, shared_secret: shared_secret@ })
                    && secrets_view(list@) == final(self)@,
                Err(e) => final(self)@ == old(self)@ && spec_generate_code(shared_secret@, time)
                    == Result::<Seq<char>, CodeError>::Err(e),
            },
    {
        match generate_steam_guard_code(shared_secret.as_str(), time) {
            Ok(_) => {
                let ghost before = self.secrets@;
                self.secrets.push(Secret { name, shared_secret });
                proof {
                    assert(secrets_view(self.secrets@) =~= secrets_view(before).push(
                        self.secrets@.last()@,
                    ));
                }
                Ok(self.get_secrets())
            },
            Err(e) => Err(e),
        }
    }

    /// Removes the secret at `index` if it is in bounds; an out-of-range
    /// index leaves the list unchanged. Returns the resulting list.
    pub fn delete_secret(&mut self, index: usize) -> (r: Vec<Secret>)
        ensures
            index < old(self)@.len() ==> final(self)@ == old(self)@.remove(index as int),
            index >= old(self)@.len() ==> final(self)@ == old(self)@,
            secrets_view(r@) == final(self)@,
    {
        if index < self.secrets.len() {
            let ghost before = self.secrets@;
            self.secrets.remove(index);
            proof {
                assert(secrets_view(self.secrets@) =~= secrets_view(before).remove(index as int));
            }
        }
        self.get_secrets()
    }
}

/// The configuration file's path inside the given configuration
/// directory: the fixed file name `config.json` under it.
pub fn get_config_path(config_dir: &str) -> (r: String)
    ensures
        r@ == config_dir@ + "/config.json"@,
{
    let mut path = String::from_str(config_dir);
    path.append("/config.json");
    path
}

} // verus!
