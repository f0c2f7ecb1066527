//! The settings of the app, and what they decide.
use vstd::prelude::*;
use crate::rows;
use crate::text;

verus! {

/// The key and the model for a cloud provider.
#[derive(Debug, PartialEq, Eq)]
pub struct ProviderCreds {
    pub api_key: String,
    pub model: String,
}

/// What [`ProviderCreds`] hold.
#[verifier::ext_equal]
pub struct CredsV {
    pub api_key: Seq<char>,
    pub model: Seq<char>,
}

impl View for ProviderCreds {
    type V = CredsV;

    open spec fn view(&self) -> CredsV {
        CredsV { api_key: self.api_key@, model: self.model@ }
    }
}

/// Nothing set.
pub open spec fn no_creds() -> CredsV {
    CredsV { api_key: Seq::empty(), model: Seq::empty() }
}

impl Default for ProviderCreds {
    fn default() -> (r: Self)
        ensures
            r@ == no_creds(),
    {
        let r = ProviderCreds { api_key: String::new(), model: String::new() };
        assert(r@ =~= no_creds());
        r
    }
}

/// A provider with its credentials.
#[derive(Debug, PartialEq, Eq)]
pub struct ProviderEntry {
    pub provider: String,
    pub creds: ProviderCreds,
}

impl View for ProviderEntry {
    type V = (Seq<char>, CredsV);

    open spec fn view(&self) -> (Seq<char>, CredsV) {
        (self.provider@, self.creds@)
    }
}

/// The order of single-precision numbers on integers: a number, given by its bits, comes before
/// another exactly if its key is less, and both zeros have one key. What is not a number has none.
pub open spec fn order_key(bits: u32) -> Option<int> {
    if bits & 0x7fff_ffff > 0x7f80_0000 {
        None
    } else if bits < 0x8000_0000 {
        Some(bits as int)
    } else {
        Some(0x8000_0000 - bits as int)
    }
}

/// The order key of a single-precision number.
pub fn relevance_key(bits: u32) -> (r: Option<i64>)
    ensures
        match r {
            Some(k) => order_key(bits) == Some(k as int),
            None => order_key(bits) is None,
        },
{
    if bits & 0x7fff_ffff > 0x7f80_0000 {
        None
    } else if bits < 0x8000_0000 {
        Some(bits as i64)
    } else {
        Some(0x8000_0000 - bits as i64)
    }
}

/// The order key of 0.15.
pub const DEFAULT_MIN_RELEVANCE: i64 = 0x3e19999a;

/// The settings of the app.
#[derive(Debug, PartialEq, Eq)]
pub struct Settings {
    /// The directory of the models.
    pub models_dir: String,
    /// Where documents are written.
    pub artifacts_dir: String,
    pub ollama_host: String,
    pub ollama_model: String,
    /// `ollama`, or a cloud provider.
    pub llm_provider: String,
    pub providers: Vec<ProviderEntry>,
    /// The interpreter and the script of the GPU helper.
    pub python_bin: String,
    pub indexer_script: String,
    /// The device of the GPU helper.
    pub gpu_device: String,
    /// How many candidates are reranked, and how many of them become results.
    pub hybrid_top_k: usize,
    pub final_top_k: usize,
    /// The least relevance a passage needs to be a source, by its order key.
    pub min_relevance: i64,
    /// Whether the user's notes go into prompts.
    pub memory_enabled: bool,
}

/// The entry is that of a provider.
pub open spec fn entry_of(provider: Seq<char>) -> spec_fn((Seq<char>, CredsV)) -> bool {
    |e: (Seq<char>, CredsV)| e.0 == provider
}

/// The credentials of a provider; none are set where it has none.
pub open spec fn creds_of(v: Seq<(Seq<char>, CredsV)>, provider: Seq<char>) -> CredsV {
    match rows::find_row(v, entry_of(provider)) {
        Some(e) => e.1,
        None => no_creds(),
    }
}

/// The model for answers where the user chose none; for Anthropic there is a fallback.
pub open spec fn model_of(
    provider: Seq<char>,
    ollama_model: Seq<char>,
    v: Seq<(Seq<char>, CredsV)>,
    fallback: Seq<char>,
) -> Seq<char> {
    if provider == "ollama"@ {
        ollama_model
    } else if provider == "anthropic"@ && creds_of(v, provider).model.len() == 0 {
        fallback
    } else {
        creds_of(v, provider).model
    }
}

impl Default for Settings {
    fn default() -> (r: Self)
        ensures
            r.models_dir@ == "models"@,
            r.artifacts_dir@ == "artifacts"@,
            r.ollama_host@ == "http://localhost:11434"@,
            r.ollama_model@ == "gemma4:12b-mlx"@,
            r.llm_provider@ == "ollama"@,
            r.providers@.len() == 0,
            r.python_bin@ == Seq::<char>::empty(),
            r.indexer_script@ == Seq::<char>::empty(),
            r.gpu_device@ == "mps"@,
            r.hybrid_top_k == 24,
            r.final_top_k == 8,
            r.min_relevance == DEFAULT_MIN_RELEVANCE,
            r.memory_enabled,
    {
        let r = Settings {
            models_dir: "models".to_owned(),
            artifacts_dir: "artifacts".to_owned(),
            ollama_host: "http://localhost:11434".to_owned(),
            ollama_model: "gemma4:12b-mlx".to_owned(),
            llm_provider: "ollama".to_owned(),
            providers: Vec::new(),
            python_bin: String::new(),
            indexer_script: String::new(),
            gpu_device: "mps".to_owned(),
            hybrid_top_k: 24,
            final_top_k: 8,
            min_relevance: DEFAULT_MIN_RELEVANCE,
            memory_enabled: true,
        };
        assert(r.python_bin@ =~= Seq::empty());
        assert(r.indexer_script@ =~= Seq::empty());
        r
    }
}

impl Settings {
    /// The credentials of a provider.
    pub fn creds(&self, provider: &str) -> (r: ProviderCreds)
        ensures
            r@ == creds_of(rows::vals(self.providers@), provider@),
    {
        let found: Option<usize> = rows::find_where(
            &self.providers,
            |e: &ProviderEntry| -> (b: bool)
                ensures
                    b == entry_of(provider@)(e@)
                { text::same_text(e.provider.as_str(), provider) },
            Ghost(entry_of(provider@)),
        );
        match found {
            Some(i) => ProviderCreds {
                api_key: self.providers[i].creds.api_key.clone(),
                model: self.providers[i].creds.model.clone(),
            },
            None => ProviderCreds::default(),
        }
    }

    /// The model for answers where the user chose none; for Anthropic there is a fallback.
    pub fn default_model(&self, fallback: &str) -> (r: String)
        ensures
            r@ == model_of(
                self.llm_provider@,
                self.ollama_model@,
                rows::vals(self.providers@),
                fallback@,
            ),
    {
        let p = self.llm_provider.as_str();
        if text::same_text(p, "ollama") {
            return self.ollama_model.clone();
        }
        let m = self.creds(p).model;
        if text::same_text(p, "anthropic") && m.as_str().unicode_len() == 0 {
            fallback.to_owned()
        } else {
            m
        }
    }
}

} // verus!
