use vstd::prelude::*;

verus! {

/// User preferences: the defaults that command-line options override.
pub struct Config {
    /// Default number of words to generate.
    pub default_word_count: u8,
    /// Default directory for saved phrases.
    pub output_directory: Option<String>,
    /// Whether output is colored.
    pub use_colors: bool,
    /// Log level (ERROR, WARN, INFO, DEBUG, TRACE).
    pub log_level: String,
    /// Whether warnings are shown.
    pub show_warnings: bool,
}

impl Default for Config {
    /// Twelve words, no output directory, colors on, level INFO, warnings shown.
    fn default() -> (r: Self)
        ensures
            r.default_word_count == 12,
            r.output_directory is None,
            r.use_colors,
            r.log_level@ == "INFO"@,
            r.show_warnings,
    {
        Config {
            default_word_count: 12,
            output_directory: None,
            use_colors: true,
            log_level: "INFO".to_owned(),
            show_warnings: true,
        }
    }
}

impl Config {
    /// Applies command-line options: a given word count replaces the default, and
    /// `no_color` turns colors off; nothing else changes.
    pub fn update_from_args(&mut self, words: Option<u8>, no_color: bool)
        ensures
            final(self).default_word_count == (match words {
                Some(n) => n,
                None => old(self).default_word_count,
            }),
            final(self).use_colors == (old(self).use_colors && !no_color),
            final(self).output_directory == old(self).output_directory,
            final(self).log_level == old(self).log_level,
            final(self).show_warnings == old(self).show_warnings,
    {
        if let Some(word_count) = words {
            self.default_word_count = word_count;
        }
        if no_color {
            self.use_colors = false;
        }
    }

    /// Whether colored output is wanted.
    pub fn should_use_colors(&self) -> (r: bool)
        ensures
            r == self.use_colors,
    {
        self.use_colors
    }

    /// The configured log level.
    pub fn log_level(&self) -> (r: &str)
        ensures
            r@ == self.log_level@,
    {
        self.log_level.as_str()
    }

    /// The default word count.
    pub fn default_word_count(&self) -> (r: u8)
        ensures
            r == self.default_word_count,
    {
        self.default_word_count
    }

    /// The output directory, if one is configured.
    pub fn output_directory(&self) -> (r: Option<&String>)
        ensures
            match self.output_directory {
                Some(d) => r matches Some(x) && x@ == d@,
                None => r is None,
            },
    {
        match &self.output_directory {
            Some(d) => Some(d),
            None => None,
        }
    }
}

} // verus!
