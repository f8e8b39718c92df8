//! LLM provider entries of the app configuration, and storing or clearing a
//! provider's API key.
use vstd::prelude::*;
use crate::downloads::{opt_str_view, opt_view};

verus! {

/// One configured LLM provider.
#[derive(Clone, Debug)]
pub struct ProviderConfig {
    pub id: String,
    pub base_url: Option<String>,
    pub api_key: Option<String>,
}

/// A provider entry as plain values.
pub struct ProviderView {
    pub id: Seq<char>,
    pub base_url: Option<Seq<char>>,
    pub api_key: Option<Seq<char>>,
}

impl View for ProviderConfig {
    type V = ProviderView;

    open spec fn view(&self) -> ProviderView {
        ProviderView { id: self.id@, base_url: opt_view(self.base_url), api_key: opt_view(self.api_key) }
    }
}

pub open spec fn providers_view(s: Seq<ProviderConfig>) -> Seq<ProviderView> {
    s.map_values(|p: ProviderConfig| p@)
}

/// Body of a request that sets a provider's secret.
#[derive(Clone, Debug)]
pub struct ProviderSecretRequest {
    pub secret: String,
}

/// Position of the first provider with `id`, if any.
pub open spec fn first_with_id(s: Seq<ProviderView>, id: Seq<char>) -> Option<int>
    decreases s.len(),
{
    if s.len() == 0 {
        None
    } else if s[0].id == id {
        Some(0)
    } else {
        match first_with_id(s.drop_first(), id) {
            Some(k) => Some(k + 1),
            None => None,
        }
    }
}

/// The providers after setting `id`'s secret: the first entry with that id
/// takes it; without one, a new entry with no base URL is appended.
pub open spec fn upsert_spec(s: Seq<ProviderView>, id: Seq<char>, secret: Option<Seq<char>>) -> Seq<ProviderView> {
    match first_with_id(s, id) {
        Some(k) => s.update(k, ProviderView { id: s[k].id, base_url: s[k].base_url, api_key: secret }),
        None => s.push(ProviderView { id, base_url: None, api_key: secret }),
    }
}

proof fn lemma_first_with_id(s: Seq<ProviderView>, id: Seq<char>)
    ensures
        first_with_id(s, id) matches Some(k) ==> 0 <= k < s.len() && s[k].id == id && forall|j: int|
            0 <= j < k ==> (#[trigger] s[j]).id != id,
        first_with_id(s, id) is None ==> forall|j: int| 0 <= j < s.len() ==> (#[trigger] s[j]).id != id,
    decreases s.len(),
{
    if s.len() > 0 {
        lemma_first_with_id(s.drop_first(), id);
        if s[0].id != id {
            assert forall|j: int| 0 < j < s.len() implies (#[trigger] s[j]).id == s.drop_first()[j - 1].id by {}
        }
    }
}

/// Sets (`Some`) or clears (`None`) the API key of provider `id`, creating
/// the provider entry when there is none.
pub fn upsert_provider_secret(providers: &mut Vec<ProviderConfig>, id: &str, secret: Option<&str>)
    ensures
        providers_view(final(providers)@) == upsert_spec(providers_view(old(providers)@), id@, opt_str_view(secret)),
{
    let ghost before = providers_view(providers@);
    let key = String::from_str(id);
    let mut i: usize = 0;
    while i < providers.len()
        invariant
            i <= providers@.len(),
            providers@ == old(providers)@,
            before == providers_view(providers@),
            key@ == id@,
            forall|j: int| 0 <= j < i ==> (#[trigger] before[j]).id != id@,
        decreases providers.len() - i,
    {
        if providers[i].id == key {
            proof {
                lemma_first_with_id(before, id@);
                assert(before[i as int].id == id@);
            }
            let redacted = match secret {
                Some(s) => Some(String::from_str(s)),
                None => None,
            };
            providers[i].api_key = redacted;
            proof {
                assert(providers_view(providers@) =~= upsert_spec(before, id@, opt_str_view(secret)));
            }
            return;
        }
        proof {
            assert(before[i as int].id == providers@[i as int].id@);
        }
        i += 1;
    }
    proof {
        lemma_first_with_id(before, id@);
        if first_with_id(before, id@) is Some {
            let k = first_with_id(before, id@)->0;
            assert(before[k].id != id@);
        }
    }
    let redacted = match secret {
        Some(s) => Some(String::from_str(s)),
        None => None,
    };
    providers.push(ProviderConfig { id: key, base_url: None, api_key: redacted });
    proof {
        assert(providers_view(providers@) =~= upsert_spec(before, id@, opt_str_view(secret)));
    }
}

/// The secret stored for `id`: that of the first entry with the id.
pub open spec fn secret_of(s: Seq<ProviderView>, id: Seq<char>) -> Option<Option<Seq<char>>> {
    match first_with_id(s, id) {
        Some(k) => Some(s[k].api_key),
        None => None,
    }
}

/// After setting a provider's secret, the provider exists and holds exactly
/// that secret; every other provider is untouched, and the list grows only
/// when the provider was new.
pub proof fn law_upsert_stores_the_secret(s: Seq<ProviderView>, id: Seq<char>, secret: Option<Seq<char>>)
    ensures
        ({
            let t = upsert_spec(s, id, secret);
            &&& secret_of(t, id) == Some(secret)
            &&& forall|other: Seq<char>| other != id ==> #[trigger] secret_of(t, other) == secret_of(s, other)
            &&& t.len() == if first_with_id(s, id) is Some { s.len() } else { s.len() + 1 }
        }),
{
    let t = upsert_spec(s, id, secret);
    lemma_first_with_id(s, id);
    lemma_first_with_id(t, id);
    match first_with_id(s, id) {
        Some(k) => {
            assert(t[k].id == id);
            assert forall|j: int| 0 <= j < k implies (#[trigger] t[j]).id != id by {
                assert(t[j] == s[j]);
            }
            lemma_first_unique(t, id, k);
        },
        None => {
            let n = s.len() as int;
            assert forall|j: int| 0 <= j < n implies (#[trigger] t[j]).id != id by {
                assert(t[j] == s[j]);
            }
            lemma_first_unique(t, id, n);
        },
    }
    assert forall|other: Seq<char>| other != id implies #[trigger] secret_of(t, other) == secret_of(s, other) by {
        lemma_upsert_other(s, id, secret, other);
    }
}

proof fn lemma_first_unique(s: Seq<ProviderView>, id: Seq<char>, k: int)
    requires
        0 <= k < s.len(),
        s[k].id == id,
        forall|j: int| 0 <= j < k ==> (#[trigger] s[j]).id != id,
    ensures
        first_with_id(s, id) == Some(k),
    decreases k,
{
    if k > 0 {
        assert forall|j: int| 0 <= j < k - 1 implies (#[trigger] s.drop_first()[j]).id != id by {
            assert(s.drop_first()[j] == s[j + 1]);
        }
        lemma_first_unique(s.drop_first(), id, k - 1);
    }
}

proof fn lemma_upsert_other(s: Seq<ProviderView>, id: Seq<char>, secret: Option<Seq<char>>, other: Seq<char>)
    requires
        other != id,
    ensures
        secret_of(upsert_spec(s, id, secret), other) == secret_of(s, other),
{
    let t = upsert_spec(s, id, secret);
    lemma_first_with_id(s, other);
    lemma_first_with_id(s, id);
    assert forall|j: int| 0 <= j < s.len() implies (#[trigger] t[j]).id == s[j].id by {}
    match first_with_id(s, other) {
        Some(k) => {
            assert forall|j: int| 0 <= j < k implies (#[trigger] t[j]).id != other by {
                assert(t[j].id == s[j].id);
            }
            assert(t[k].id == other);
            lemma_first_unique(t, other, k);
            if let Some(m) = first_with_id(s, id) {
                assert(m != k);
            }
        },
        None => {
            lemma_first_with_id(t, other);
            if let Some(k) = first_with_id(t, other) {
                if k < s.len() {
                    assert(t[k].id == s[k].id);
                } else {
                    assert(t[k].id == id);
                }
            }
        },
    }
}

/// Setting the same secret twice is the same as setting it once.
pub proof fn law_upsert_is_idempotent(s: Seq<ProviderView>, id: Seq<char>, secret: Option<Seq<char>>)
    ensures
        upsert_spec(upsert_spec(s, id, secret), id, secret) == upsert_spec(s, id, secret),
{
    let t = upsert_spec(s, id, secret);
    law_upsert_stores_the_secret(s, id, secret);
    lemma_first_with_id(t, id);
    let k = first_with_id(t, id)->0;
    assert(t[k].api_key == secret);
    assert(upsert_spec(t, id, secret) =~= t);
}

/// The engine configured for each pipeline stage; empty means "none".
#[derive(Clone, Debug)]
pub struct PipelineConfig {
    pub detector: String,
    pub font_detector: String,
    pub segmenter: String,
    pub bubble_segmenter: String,
    pub ocr: String,
    pub translator: String,
    pub inpainter: String,
    pub renderer: String,
}

/// The non-empty strings of `s`, in order.
pub open spec fn non_empty(s: Seq<Seq<char>>) -> Seq<Seq<char>> {
    s.filter(|x: Seq<char>| x.len() > 0)
}

pub open spec fn strings_view(s: Seq<String>) -> Seq<Seq<char>> {
    s.map_values(|x: String| x@)
}

/// Stages in pipeline order: detection, segmentation, bubble segmentation,
/// font detection, OCR, translation (when asked for), inpainting, rendering.
pub open spec fn configured_stages(cfg: PipelineConfig, with_translate: bool) -> Seq<Seq<char>> {
    let before = seq![cfg.detector@, cfg.segmenter@, cfg.bubble_segmenter@, cfg.font_detector@, cfg.ocr@];
    let after = seq![cfg.inpainter@, cfg.renderer@];
    if with_translate {
        before + seq![cfg.translator@] + after
    } else {
        before + after
    }
}

fn push_stage(steps: &mut Vec<String>, stage: &String)
    ensures
        strings_view(final(steps)@) == if stage@.len() > 0 { strings_view(old(steps)@).push(stage@) } else { strings_view(old(steps)@) },
{
    if stage.unicode_len() > 0 {
        steps.push(stage.clone());
        proof {
            assert(strings_view(steps@) =~= strings_view(old(steps)@).push(stage@));
        }
    }
}

/// The steps to run: those given on the command line (empty ones dropped),
/// else every configured stage in pipeline order, translation only when asked
/// for, unconfigured stages skipped.
pub fn resolve_steps(cli_steps: Option<Vec<String>>, with_translate: bool, cfg: &PipelineConfig) -> (r: Vec<String>)
    ensures
        strings_view(r@) == match cli_steps {
            Some(s) => non_empty(strings_view(s@)),
            None => non_empty(configured_stages(*cfg, with_translate)),
        },
{
    let ghost source = if cli_steps is Some {
        strings_view(cli_steps->0@)
    } else {
        configured_stages(*cfg, with_translate)
    };
    let candidates: Vec<String> = match cli_steps {
        Some(s) => s,
        None => {
            let mut all: Vec<String> = Vec::new();
            all.push(cfg.detector.clone());
            all.push(cfg.segmenter.clone());
            all.push(cfg.bubble_segmenter.clone());
            all.push(cfg.font_detector.clone());
            all.push(cfg.ocr.clone());
            if with_translate {
                all.push(cfg.translator.clone());
            }
            all.push(cfg.inpainter.clone());
            all.push(cfg.renderer.clone());
            proof {
                assert(strings_view(all@) =~= configured_stages(*cfg, with_translate));
            }
            all
        },
    };
    let mut steps: Vec<String> = Vec::new();
    let mut i: usize = 0;
    while i < candidates.len()
        invariant
            i <= candidates@.len(),
            strings_view(candidates@) == source,
            strings_view(steps@) == non_empty(source.take(i as int)),
        decreases candidates.len() - i,
    {
        proof {
            assert(source.take(i + 1) =~= source.take(i as int).push(source[i as int]));
            assert(source[i as int] == candidates@[i as int]@);
            source.take(i as int).lemma_filter_push(source[i as int], |x: Seq<char>| x.len() > 0);
        }
        push_stage(&mut steps, &candidates[i]);
        i += 1;
    }
    proof {
        assert(source.take(candidates@.len() as int) =~= source);
    }
    steps
}

} // verus!
