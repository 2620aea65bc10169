//! Application configuration records: the run-time settings of the service
//! that owns the detection pipeline, and the lookup of a model artifact
//! path by model name.

use vstd::prelude::*;

verus! {

/// Database connection settings.
pub struct DatabaseConfig {
    pub path: String,
}

/// File storage settings.
pub struct StorageConfig {
    pub path: String,
}

impl StorageConfig {
    /// The full storage path of one stored file: the storage root, a slash,
    /// and the file name.
    pub fn get_path(&self, filename: String) -> (r: String)
        ensures
            r@ == self.path@ + "/"@ + filename@,
    {
        let mut r = self.path.clone();
        r.append("/");
        r.append(filename.as_str());
        r
    }
}

/// Session management settings.
pub struct SessionConfig {
    pub logout_on_ip_change: bool,
    pub timeout: u64,
}

/// Outgoing mail settings.
pub struct EmailConfig {
    pub host: String,
    pub port: u16,
    pub username: String,
    pub password: String,
    pub from: String,
}

/// One installed detection model: its name and its artifact path.
pub struct Model {
    pub name: String,
    pub path: String,
}

/// The set of installed detection models.
pub struct AiConfig {
    pub models: Vec<Model>,
}

impl AiConfig {
    /// The artifact path of the first model with the given name, if any
    /// model carries it.
    pub fn get_model_path(&self, name: &str) -> (r: Option<String>)
        ensures
            match r {
                Some(p) => exists|i: int|
                    0 <= i < self.models@.len() && (#[trigger] self.models@[i]).name@ == name@
                        && p@ == self.models@[i].path@ && (forall|j: int|
                        0 <= j < i ==> (#[trigger] self.models@[j]).name@ != name@),
                None => forall|i: int|
                    0 <= i < self.models@.len() ==> (#[trigger] self.models@[i]).name@ != name@,
            },
    {
        let target: String = name.to_owned();
        let mut i: usize = 0;
        while i < self.models.len()
            invariant
                target@ == name@,
                i <= self.models@.len(),
                forall|j: int| 0 <= j < i ==> (#[trigger] self.models@[j]).name@ != name@,
            decreases self.models@.len() - i,
        {
            if self.models[i].name == target {
                return Some(self.models[i].path.clone());
            }
            i = i + 1;
        }
        None
    }
}

/// Web server settings.
pub struct ServerConfig {
    pub host: String,
    pub port: u16,
    pub origins: Vec<String>,
    pub base_url: String,
}

/// The whole application configuration.
pub struct Config {
    pub database: DatabaseConfig,
    pub storage: StorageConfig,
    pub session: SessionConfig,
    pub email: EmailConfig,
    pub ai: AiConfig,
    pub server: ServerConfig,
}

} // verus!
