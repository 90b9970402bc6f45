//! The settings of the exporter.
use vstd::prelude::*;

verus! {

/// How to call the program.
pub const USAGE: &'static str = "Usage: docker-stats [OPTIONS]\n\
\n\
Options:\n\x20 -l, --listen ADDR             Address for the Prometheus metrics endpoint [default: 127.0.0.1:9100]\n\x20 -r, --render-seconds SECONDS  How often to render the current metrics body [default: 5]\n\x20     --help                    Show this help";

/// The settings of the exporter.
#[derive(Clone, Debug)]
pub struct Config {
    /// The address at which the metrics are served.
    pub listen_addr: String,
    /// How many seconds pass between two renderings of the metrics.
    pub render_seconds: u64,
}

/// The values that a [`Config`] holds.
#[verifier::ext_equal]
pub struct ConfigView {
    pub listen_addr: Seq<char>,
    pub render_seconds: u64,
}

impl View for Config {
    type V = ConfigView;

    open spec fn view(&self) -> ConfigView {
        ConfigView { listen_addr: self.listen_addr@, render_seconds: self.render_seconds }
    }
}

/// One setting, as an option gives it.
#[derive(Clone, Debug)]
pub enum Setting {
    Listen(String),
    RenderSeconds(u64),
}

/// The settings after one of them is given, unless it sets a time to zero.
pub open spec fn after_setting(config: ConfigView, setting: Setting) -> Option<ConfigView> {
    match setting {
        Setting::Listen(listen_addr) => Some(
            ConfigView { listen_addr: listen_addr@, ..config },
        ),
        Setting::RenderSeconds(seconds) => if seconds == 0 {
            None
        } else {
            Some(ConfigView { render_seconds: seconds, ..config })
        },
    }
}

/// The settings after some are given one after the other, unless one of them sets a time to zero.
pub open spec fn after_settings(config: ConfigView, settings: Seq<Setting>) -> Option<ConfigView>
    decreases settings.len(),
{
    if settings.len() == 0 {
        Some(config)
    } else {
        match after_settings(config, settings.drop_last()) {
            Some(config) => after_setting(config, settings.last()),
            None => None,
        }
    }
}

impl Config {
    /// Some time passes between two renderings.
    pub open spec fn wf(&self) -> bool {
        self.render_seconds > 0
    }

    /// The settings with another time between two renderings, which must not be zero.
    pub fn with_render_seconds(self, seconds: u64) -> (config: Result<Self, ZeroSeconds>)
        ensures
            match config {
                Ok(config) => {
                    &&& seconds > 0
                    &&& config.wf()
                    &&& config.render_seconds == seconds
                    &&& config.listen_addr == self.listen_addr
                },
                Err(error) => seconds == 0 && error.name@ == "render-seconds"@,
            },
    {
        match seconds_arg("render-seconds", seconds) {
            Ok(render_seconds) => Ok(Config { listen_addr: self.listen_addr, render_seconds }),
            Err(error) => Err(error),
        }
    }

    /// The settings with another address.
    pub fn with_listen_addr(self, listen_addr: String) -> (config: Self)
        ensures
            config.listen_addr == listen_addr,
            config.render_seconds == self.render_seconds,
    {
        Config { listen_addr, render_seconds: self.render_seconds }
    }

    /// The settings after one of them is given.
    pub fn with_setting(self, setting: Setting) -> (config: Result<Self, ZeroSeconds>)
        ensures
            match config {
                Ok(config) => after_setting(self@, setting) == Some(config@),
                Err(error) => after_setting(self@, setting) is None && error.name@
                    == "render-seconds"@,
            },
    {
        match setting {
            Setting::Listen(listen_addr) => Ok(self.with_listen_addr(listen_addr)),
            Setting::RenderSeconds(seconds) => self.with_render_seconds(seconds),
        }
    }

    /// The settings after some are given one after the other.
    pub fn with_settings(self, settings: Vec<Setting>) -> (config: Result<Self, ZeroSeconds>)
        ensures
            match config {
                Ok(config) => after_settings(self@, settings@) == Some(config@) && (self.wf()
                    ==> config.wf()),
                Err(error) => after_settings(self@, settings@) is None && error.name@
                    == "render-seconds"@,
            },
    {
        let ghost all = settings@;
        let ghost mut taken: int = 0;
        let mut rest = settings;
        let mut config = self;
        while rest.len() > 0
            invariant
                all == settings@,
                0 <= taken <= all.len(),
                rest@ == all.skip(taken),
                after_settings(self@, all.take(taken)) == Some(config@),
                self.wf() ==> config.wf(),
            decreases rest@.len(),
        {
            let setting = rest.remove(0);
            assert(all.take(taken + 1).drop_last() =~= all.take(taken));
            assert(all.take(taken + 1).last() == setting);
            match config.with_setting(setting) {
                Ok(next) => {
                    config = next;
                },
                Err(error) => {
                    proof {
                        assert(after_settings(self@, all.take(taken + 1)) is None);
                        law_settings_fail_at_zero_seconds(self@, all.take(taken + 1));
                        law_settings_fail_at_zero_seconds(self@, all);
                        let i = choose|i: int|
                            0 <= i < taken + 1 && #[trigger] all.take(taken + 1)[i]
                                == Setting::RenderSeconds(0);
                        assert(all[i] == Setting::RenderSeconds(0));
                    }
                    return Err(error);
                },
            }
            proof {
                taken = taken + 1;
                assert(rest@ =~= all.skip(taken));
            }
        }
        assert(all.take(taken) =~= all);
        Ok(config)
    }
}

impl Default for Config {
    fn default() -> (config: Self)
        ensures
            config.wf(),
            config.listen_addr@ == "127.0.0.1:9100"@,
            config.render_seconds == 5,
    {
        Config { listen_addr: "127.0.0.1:9100".to_string(), render_seconds: 5 }
    }
}

/// A time was set to zero seconds.
#[derive(Clone, Debug)]
pub struct ZeroSeconds {
    /// The option that set it.
    pub name: &'static str,
}

impl ZeroSeconds {
    /// The error in words.
    pub fn message(&self) -> (message: String)
        ensures
            message@ == self.name@ + " must be greater than zero"@,
    {
        let mut message = self.name.to_string();
        message.append(" must be greater than zero");
        message
    }
}

/// The seconds that an option gives, which must not be zero.
pub fn seconds_arg(name: &'static str, seconds: u64) -> (result: Result<u64, ZeroSeconds>)
    ensures
        match result {
            Ok(result) => seconds > 0 && result == seconds,
            Err(error) => seconds == 0 && error.name@ == name@,
        },
{
    if seconds == 0 {
        Err(ZeroSeconds { name })
    } else {
        Ok(seconds)
    }
}

/// The options that the program knows.
#[derive(Clone, Copy, Debug, PartialEq, Eq, Structural)]
pub enum ProgramOption {
    Listen,
    RenderSeconds,
    Help,
}

/// The option that a letter stands for.
pub open spec fn option_of_letter(letter: char) -> Option<ProgramOption> {
    if letter == 'l' {
        Some(ProgramOption::Listen)
    } else if letter == 'r' {
        Some(ProgramOption::RenderSeconds)
    } else {
        None
    }
}

/// The option that a word stands for.
pub open spec fn option_of_word(word: Seq<char>) -> Option<ProgramOption> {
    if word == "listen"@ {
        Some(ProgramOption::Listen)
    } else if word == "render-seconds"@ {
        Some(ProgramOption::RenderSeconds)
    } else if word == "help"@ {
        Some(ProgramOption::Help)
    } else {
        None
    }
}

/// Finds the option that a letter stands for.
pub fn short_option(letter: char) -> (option: Option<ProgramOption>)
    ensures
        option == option_of_letter(letter),
{
    if letter == 'l' {
        Some(ProgramOption::Listen)
    } else if letter == 'r' {
        Some(ProgramOption::RenderSeconds)
    } else {
        None
    }
}

/// Finds the option that a word stands for.
pub fn long_option(word: &str) -> (option: Option<ProgramOption>)
    ensures
        option == option_of_word(word@),
{
    let word = word.to_string();
    if word == "listen".to_string() {
        Some(ProgramOption::Listen)
    } else if word == "render-seconds".to_string() {
        Some(ProgramOption::RenderSeconds)
    } else if word == "help".to_string() {
        Some(ProgramOption::Help)
    } else {
        None
    }
}

// ---------------------------------------------------------------------------------------------
// Laws
// ---------------------------------------------------------------------------------------------

/// Settings fail exactly where one of them sets a time to zero.
pub proof fn law_settings_fail_at_zero_seconds(config: ConfigView, settings: Seq<Setting>)
    ensures
        after_settings(config, settings) is None <==> exists|i: int|
            0 <= i < settings.len() && #[trigger] settings[i] == Setting::RenderSeconds(0),
    decreases settings.len(),
{
    if settings.len() > 0 {
        let front = settings.drop_last();
        law_settings_fail_at_zero_seconds(config, front);
        if after_settings(config, front) is None {
            let i = choose|i: int|
                0 <= i < front.len() && #[trigger] front[i] == Setting::RenderSeconds(0);
            assert(settings[i] == Setting::RenderSeconds(0));
        } else {
            assert(after_settings(config, settings) is None <==> settings[settings.len() - 1]
                == Setting::RenderSeconds(0));
            assert forall|i: int| 0 <= i < front.len() implies #[trigger] settings[i]
                != Setting::RenderSeconds(0) by {
                assert(front[i] == settings[i]);
            }
        }
    }
}

/// A setting that is given after others wins, and leaves the other setting as it was.
pub proof fn law_one_more_setting(
    config: ConfigView,
    settings: Seq<Setting>,
    listen_addr: String,
    seconds: u64,
)
    requires
        after_settings(config, settings) is Some,
        seconds > 0,
    ensures
        after_settings(config, settings.push(Setting::Listen(listen_addr))) == Some(
            (ConfigView {
                listen_addr: listen_addr@,
                ..after_settings(config, settings)->0
            }),
        ),
        after_settings(config, settings.push(Setting::RenderSeconds(seconds))) == Some(
            (ConfigView { render_seconds: seconds, ..after_settings(config, settings)->0 }),
        ),
{
    assert(settings.push(Setting::Listen(listen_addr)).drop_last() =~= settings);
    assert(settings.push(Setting::RenderSeconds(seconds)).drop_last() =~= settings);
}

/// The last address that is given counts, and where none is given (`last` is -1) the one before.
pub proof fn law_last_address_wins(config: ConfigView, settings: Seq<Setting>, last: int)
    requires
        after_settings(config, settings) is Some,
        -1 <= last < settings.len(),
        last >= 0 ==> settings[last] is Listen,
        forall|j: int| last < j < settings.len() ==> !((#[trigger] settings[j]) is Listen),
    ensures
        after_settings(config, settings)->0.listen_addr == if last >= 0 {
            settings[last]->Listen_0@
        } else {
            config.listen_addr
        },
    decreases settings.len(),
{
    let end = settings.len() - 1;
    if last < end {
        let front = settings.drop_last();
        assert(!(settings[end] is Listen));
        assert forall|j: int| last < j < front.len() implies !((#[trigger] front[j]) is Listen) by {
            assert(front[j] == settings[j]);
        }
        law_last_address_wins(config, front, last);
    }
}

/// The last time that is given counts, and where none is given (`last` is -1) the one before.
pub proof fn law_last_time_wins(config: ConfigView, settings: Seq<Setting>, last: int)
    requires
        after_settings(config, settings) is Some,
        -1 <= last < settings.len(),
        last >= 0 ==> settings[last] is RenderSeconds,
        forall|j: int| last < j < settings.len() ==> !((#[trigger] settings[j]) is RenderSeconds),
    ensures
        after_settings(config, settings)->0.render_seconds == if last >= 0 {
            settings[last]->RenderSeconds_0
        } else {
            config.render_seconds
        },
    decreases settings.len(),
{
    let end = settings.len() - 1;
    if last < end {
        let front = settings.drop_last();
        assert(!(settings[end] is RenderSeconds));
        assert forall|j: int| last < j < front.len() implies !((#[trigger] front[j]) is RenderSeconds) by {
            assert(front[j] == settings[j]);
        }
        law_last_time_wins(config, front, last);
    }
}

/// The view of the settings holds both of them.
pub proof fn law_settings_are_seen_in_full(config: Config)
    ensures
        config@.listen_addr == config.listen_addr@,
        config@.render_seconds == config.render_seconds,
{
}

/// Each option has its letter or its word, and no other letter or word stands for an option.
pub proof fn law_options_have_their_names(letter: char, word: Seq<char>)
    ensures
        option_of_letter(letter) == Some(ProgramOption::Listen) <==> letter == 'l',
        option_of_letter(letter) == Some(ProgramOption::RenderSeconds) <==> letter == 'r',
        option_of_letter(letter) != Some(ProgramOption::Help),
        option_of_word(word) == Some(ProgramOption::Listen) <==> word == "listen"@,
        option_of_word(word) == Some(ProgramOption::RenderSeconds) <==> word
            == "render-seconds"@,
        option_of_word(word) == Some(ProgramOption::Help) <==> word == "help"@,
{
    reveal_strlit("listen");
    reveal_strlit("render-seconds");
    reveal_strlit("help");
    assert("listen"@.len() != "help"@.len());
    assert("listen"@.len() != "render-seconds"@.len());
    assert("render-seconds"@.len() != "help"@.len());
}

} // verus!
