//! Provides constructs for the app version and release channel.
use crate::text::str_eq;
use vstd::prelude::*;
use vstd::string::*;

verus! {

/// Git repo information for the build.
#[derive(Debug)]
pub struct AppBuildInfo {
    /// Git commit SHA the app was built at.
    pub commit_sha: Option<String>,
    /// Whether some tracked files had modifications.
    pub had_modified_files: bool,
}

impl AppBuildInfo {
    /// The given build info, or one that says nothing.
    pub fn or_default(info: Option<AppBuildInfo>) -> (r: AppBuildInfo)
        ensures
            match info {
                Some(info) => r == info,
                None => r.commit_sha is None && !r.had_modified_files,
            },
    {
        match info {
            Some(info) => info,
            None => AppBuildInfo { commit_sha: None, had_modified_files: false },
        }
    }

    /// The build info in words.
    pub fn to_string(&self) -> (s: String)
        ensures
            s@ == match self.commit_sha {
                Some(sha) => if self.had_modified_files {
                    sha@ + " with modified files"@
                } else {
                    sha@
                },
                None => "No build info"@,
            },
    {
        match &self.commit_sha {
            Some(sha) => {
                let mut s = sha.clone();
                if self.had_modified_files {
                    s.append(" with modified files");
                }
                s
            },
            None => "No build info".to_owned(),
        }
    }
}

/// The version of the app.
pub struct AppVersion;

impl AppVersion {
    /// The text of the version: the one from the environment, or else the one
    /// of the package.
    pub fn init<'a>(pkg_version: &'a str, from_env: Option<&'a str>) -> (r: &'a str)
        ensures
            r@ == match from_env {
                Some(version) => version@,
                None => pkg_version@,
            },
    {
        match from_env {
            Some(version) => version,
            None => pkg_version,
        }
    }
}

/// A release channel.
#[derive(Debug, Copy, Clone, PartialEq, Eq, Structural)]
pub enum ReleaseChannel {
    /// The development release channel.
    ///
    /// Used for local debug builds.
    Dev,
    /// The Nightly release channel.
    Nightly,
    /// The Preview release channel.
    Preview,
    /// The Stable release channel.
    Stable,
}

impl Default for ReleaseChannel {
    fn default() -> (r: Self)
        ensures
            r == ReleaseChannel::Dev,
    {
        ReleaseChannel::Dev
    }
}

/// Error indicating that release channel string does not match any known release channel names.
#[derive(Copy, Clone, Debug, Hash, PartialEq, Eq, Structural)]
pub struct InvalidReleaseChannel;

impl ReleaseChannel {
    /// The programmatic name of the channel.
    pub open spec fn name(&self) -> Seq<char> {
        match self {
            ReleaseChannel::Dev => "dev"@,
            ReleaseChannel::Nightly => "nightly"@,
            ReleaseChannel::Preview => "preview"@,
            ReleaseChannel::Stable => "stable"@,
        }
    }

    /// The name of a channel: in debug builds that of the environment, if it is
    /// set, otherwise the one that was built in.
    pub fn configured_name<'a>(
        debug_build: bool,
        from_env: Option<&'a str>,
        built_in: &'a str,
    ) -> (r: &'a str)
        ensures
            r@ == if debug_build && from_env is Some {
                from_env->0@
            } else {
                built_in@
            },
    {
        match from_env {
            Some(name) => if debug_build {
                name
            } else {
                built_in
            },
            None => built_in,
        }
    }

    /// Returns whether we want to poll for updates for this [`ReleaseChannel`]
    pub fn poll_for_updates(&self) -> (r: bool)
        ensures
            r == !(self is Dev),
    {
        match self {
            ReleaseChannel::Dev => false,
            _ => true,
        }
    }

    /// Returns the display name for this [`ReleaseChannel`].
    pub fn display_name(&self) -> (r: &'static str)
        ensures
            r@ == match self {
                ReleaseChannel::Dev => "Zed Dev"@,
                ReleaseChannel::Nightly => "Zed Nightly"@,
                ReleaseChannel::Preview => "Zed Preview"@,
                ReleaseChannel::Stable => "Zed"@,
            },
    {
        match self {
            ReleaseChannel::Dev => "Zed Dev",
            ReleaseChannel::Nightly => "Zed Nightly",
            ReleaseChannel::Preview => "Zed Preview",
            ReleaseChannel::Stable => "Zed",
        }
    }

    /// Returns the programmatic name for this [`ReleaseChannel`].
    pub fn dev_name(&self) -> (r: &'static str)
        ensures
            r@ == self.name(),
    {
        match self {
            ReleaseChannel::Dev => "dev",
            ReleaseChannel::Nightly => "nightly",
            ReleaseChannel::Preview => "preview",
            ReleaseChannel::Stable => "stable",
        }
    }

    /// Returns the application ID that's used by Wayland as application ID
    /// and WM_CLASS on X11.
    /// This also has to match the bundle identifier on macOS.
    pub fn app_id(&self) -> (r: &'static str)
        ensures
            r@ == match self {
                ReleaseChannel::Dev => "dev.zed.Zed-Dev"@,
                ReleaseChannel::Nightly => "dev.zed.Zed-Nightly"@,
                ReleaseChannel::Preview => "dev.zed.Zed-Preview"@,
                ReleaseChannel::Stable => "dev.zed.Zed"@,
            },
    {
        match self {
            ReleaseChannel::Dev => "dev.zed.Zed-Dev",
            ReleaseChannel::Nightly => "dev.zed.Zed-Nightly",
            ReleaseChannel::Preview => "dev.zed.Zed-Preview",
            ReleaseChannel::Stable => "dev.zed.Zed",
        }
    }

    /// Returns the query parameter for this [`ReleaseChannel`].
    pub fn release_query_param(&self) -> (r: Option<&'static str>)
        ensures
            match self {
                ReleaseChannel::Nightly => r is Some && r->0@ == "nightly=1"@,
                ReleaseChannel::Preview => r is Some && r->0@ == "preview=1"@,
                _ => r is None,
            },
    {
        match self {
            ReleaseChannel::Dev => None,
            ReleaseChannel::Nightly => Some("nightly=1"),
            ReleaseChannel::Preview => Some("preview=1"),
            ReleaseChannel::Stable => None,
        }
    }

    /// Reads the programmatic name of a channel.
    pub fn from_str(channel: &str) -> (r: Result<Self, InvalidReleaseChannel>)
        ensures
            match r {
                Ok(c) => channel@ == c.name(),
                Err(_) => forall|c: ReleaseChannel| channel@ != #[trigger] c.name(),
            },
    {
        if str_eq(channel, "dev") {
            Ok(ReleaseChannel::Dev)
        } else if str_eq(channel, "nightly") {
            Ok(ReleaseChannel::Nightly)
        } else if str_eq(channel, "preview") {
            Ok(ReleaseChannel::Preview)
        } else if str_eq(channel, "stable") {
            Ok(ReleaseChannel::Stable)
        } else {
            Err(InvalidReleaseChannel)
        }
    }
}

/// No two channels have the same name, so reading a channel's name gives the
/// channel back.
pub proof fn law_names_identify_channels(a: ReleaseChannel, b: ReleaseChannel)
    ensures
        a.name() == b.name() ==> a == b,
{
    reveal_strlit("dev");
    reveal_strlit("nightly");
    reveal_strlit("preview");
    reveal_strlit("stable");
    assert("dev"@.len() == 3 && "nightly"@.len() == 7 && "preview"@.len() == 7 && "stable"@.len()
        == 6);
    assert("nightly"@[0] == 'n' && "preview"@[0] == 'p');
}

} // verus!
