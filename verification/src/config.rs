//! The session configuration: the stored options, their merge with the
//! command-line arguments, and the decision how a missing configuration is
//! first obtained. Reading and writing the configuration file, and prompting
//! the user, stay outside the library.
use vstd::prelude::*;

verus! {

/// The stored configuration options, each of which may be absent.
#[derive(Debug, Clone)]
pub struct Config {
    pub file_dir: Option<String>,
    pub library_name: Option<String>,
    pub library_path: Option<String>,
}

impl Default for Config {
    /// The empty configuration: no option set.
    fn default() -> (c: Config)
        ensures
            c.file_dir is None,
            c.library_name is None,
            c.library_path is None,
    {
        Config { file_dir: None, library_name: None, library_path: None }
    }
}

/// The four resolved session parameters that an unfolding run starts from.
#[derive(Debug)]
pub struct RuntimeConfig {
    pub src: String,
    pub library_name: String,
    pub file_dir: String,
    pub library_path: Option<String>,
}

/// How a missing configuration is first obtained before a run.
#[derive(Debug, Clone, Copy, PartialEq, Eq, Structural)]
pub enum InitAction {
    /// No stored configuration and no source directory anywhere: ask the
    /// user for one.
    PromptUser,
    /// No stored configuration, but the command line carries options: store
    /// them.
    SaveCliConfig,
    /// A configuration exists, or nothing is worth storing: use what is
    /// there.
    UseExisting,
}

impl Config {
    /// Builds a configuration from the command-line options alone.
    pub fn from_cli_args(
        file_dir: Option<&String>,
        library_name: Option<String>,
        library_path: Option<&String>,
    ) -> (c: Config)
        ensures
            c.file_dir == (match file_dir {
                Some(s) => Some(*s),
                None => None::<String>,
            }),
            c.library_name == library_name,
            c.library_path == (match library_path {
                Some(s) => Some(*s),
                None => None::<String>,
            }),
    {
        Config {
            file_dir: match file_dir {
                Some(s) => Some(s.clone()),
                None => None,
            },
            library_name,
            library_path: match library_path {
                Some(s) => Some(s.clone()),
                None => None,
            },
        }
    }

    /// Merges the command-line options over this configuration into the
    /// resolved session parameters: the entry file name defaults to
    /// `main.rs`, the alias to `library`, the source directory is required
    /// from one of the two sources, and the library directory stays absent
    /// when neither source names one.
    pub fn merge_with_cli(
        &self,
        cli_src: Option<String>,
        cli_library_name: Option<String>,
        cli_file_dir: Option<String>,
        cli_library_path: Option<String>,
    ) -> (r: Result<RuntimeConfig, String>)
        ensures
            r is Ok <==> (cli_file_dir is Some || self.file_dir is Some),
            match r {
                Ok(rc) => {
                    &&& rc.src@ == (match cli_src {
                        Some(s) => s@,
                        None => "main.rs"@,
                    })
                    &&& rc.library_name@ == (match cli_library_name {
                        Some(s) => s@,
                        None => match self.library_name {
                            Some(s) => s@,
                            None => "library"@,
                        },
                    })
                    &&& rc.file_dir@ == (match cli_file_dir {
                        Some(s) => s@,
                        None => self.file_dir->Some_0@,
                    })
                    &&& (match cli_library_path {
                        Some(s) => rc.library_path matches Some(p) && p@ == s@,
                        None => match self.library_path {
                            Some(s) => rc.library_path matches Some(p) && p@ == s@,
                            None => rc.library_path is None,
                        },
                    })
                },
                Err(m) => m@
                    == "Error: --file-dir is required (or set in config file at ~/.config/cp_unfold/config.toml)"@,
            },
    {
        let src = match cli_src {
            Some(s) => s,
            None => "main.rs".to_owned(),
        };
        let library_name = match cli_library_name {
            Some(s) => s,
            None => match &self.library_name {
                Some(s) => s.clone(),
                None => "library".to_owned(),
            },
        };
        let file_dir = match cli_file_dir {
            Some(s) => s,
            None => match &self.file_dir {
                Some(s) => s.clone(),
                None => {
                    return Err(
                        "Error: --file-dir is required (or set in config file at ~/.config/cp_unfold/config.toml)".to_owned(),
                    );
                },
            },
        };
        let library_path = match cli_library_path {
            Some(s) => Some(s),
            None => match &self.library_path {
                Some(s) => Some(s.clone()),
                None => None,
            },
        };
        Ok(RuntimeConfig { src, library_name, file_dir, library_path })
    }

    /// Decides how a run first obtains its configuration: prompt when
    /// nothing anywhere names a source directory, store fresh command-line
    /// options when no configuration exists yet, and otherwise use what is
    /// there.
    pub fn init_action(
        config_exists: bool,
        config_has_file_dir: bool,
        cli_file_dir_given: bool,
        cli_library_name_given: bool,
        cli_library_path_given: bool,
    ) -> (a: InitAction)
        ensures
            a == (if !config_exists && !cli_file_dir_given && !config_has_file_dir {
                InitAction::PromptUser
            } else if !config_exists && (cli_file_dir_given || cli_library_name_given
                || cli_library_path_given) {
                InitAction::SaveCliConfig
            } else {
                InitAction::UseExisting
            }),
    {
        if !config_exists && !cli_file_dir_given && !config_has_file_dir {
            InitAction::PromptUser
        } else if !config_exists && (cli_file_dir_given || cli_library_name_given
            || cli_library_path_given) {
            InitAction::SaveCliConfig
        } else {
            InitAction::UseExisting
        }
    }
}

} // verus!
