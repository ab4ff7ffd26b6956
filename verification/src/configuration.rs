//! The application configuration and the rules that fill it in: the
//! theme and notebook path come from a configuration file when one can be
//! read, with a dark theme and no notebook as the fallback; the version
//! is handed in by the caller, which reads it from the build manifest.

use vstd::prelude::*;

verus! {

/// The configuration the application runs with.
#[derive(Debug)]
pub struct Configuration {
    pub theme: String,
    pub notebook_path: String,
    pub version: String,
}

impl Default for Configuration {
    /// An empty configuration.
    fn default() -> (r: Configuration)
        ensures
            r.theme@ == Seq::<char>::empty(),
            r.notebook_path@ == Seq::<char>::empty(),
            r.version@ == Seq::<char>::empty(),
    {
        Configuration { theme: String::new(), notebook_path: String::new(), version: String::new() }
    }
}

/// Why a configuration could not be assembled.
#[derive(Clone, Copy, Debug, PartialEq, Eq, Structural)]
pub enum ConfigError {
    /// The configuration file was readable but named no theme.
    MissingTheme,
}

/// Assembles the configuration from what the caller read. When the
/// configuration file could not be read at all, the defaults stand in: a
/// dark theme and no notebook. When it could, it must name a theme; a
/// missing notebook path merely starts the application without a
/// notebook.
pub fn configuration_from_parts(
    json_readable: bool,
    theme: Option<String>,
    notebook_path: Option<String>,
    version: String,
) -> (r: Result<Configuration, ConfigError>)
    ensures
        !json_readable ==> (r matches Ok(c) && c.theme@ == "Dark"@ && c.notebook_path@
            == Seq::<char>::empty() && c.version@ == version@),
        json_readable && theme is None ==> r == Err::<Configuration, ConfigError>(
            ConfigError::MissingTheme,
        ),
        (json_readable && theme is Some) ==> (r matches Ok(c) && c.theme@ == theme->0@
            && c.version@ == version@ && c.notebook_path@ == (match notebook_path {
            Some(p) => p@,
            None => Seq::<char>::empty(),
        })),
{
    if !json_readable {
        let dark: String = "Dark".to_owned();
        Ok(Configuration { theme: dark, notebook_path: String::new(), version })
    } else {
        match theme {
            None => Err(ConfigError::MissingTheme),
            Some(t) => {
                let np = match notebook_path {
                    Some(p) => p,
                    None => String::new(),
                };
                Ok(Configuration { theme: t, notebook_path: np, version })
            },
        }
    }
}

} // verus!
