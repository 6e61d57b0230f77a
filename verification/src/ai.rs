//! The AI assistant panel: its state, the prompts of its quick actions, the
//! message sent with the document, and what a reply does to the document.
use vstd::prelude::*;
use crate::strs::concat;

verus! {

/// Number of languages the translate action offers.
pub const LANG_COUNT: usize = 6;

/// The language names of the translate action, in menu order.
pub open spec fn spec_lang_name(i: int) -> Seq<char> {
    if i == 0 {
        "English"@
    } else if i == 1 {
        "日本語"@
    } else if i == 2 {
        "中文"@
    } else if i == 3 {
        "Français"@
    } else if i == 4 {
        "Español"@
    } else {
        "Deutsch"@
    }
}

/// The name of language `i` of the translate action.
pub fn lang_name(i: usize) -> (r: &'static str)
    requires
        i < LANG_COUNT,
    ensures
        r@ == spec_lang_name(i as int),
{
    if i == 0 {
        "English"
    } else if i == 1 {
        "日本語"
    } else if i == 2 {
        "中文"
    } else if i == 3 {
        "Français"
    } else if i == 4 {
        "Español"
    } else {
        "Deutsch"
    }
}

/// State of the AI panel. `sending` is set while a request is under way.
pub struct AiPanel {
    pub visible: bool,
    pub prompt: String,
    /// Index of the translation target language.
    pub translate_lang: usize,
    pub status: Option<String>,
    pub sending: bool,
}

/// The prompt of the summary action.
pub open spec fn summary_prompt_text() -> Seq<char> {
    "以下のMarkdownを日本語で要約してください。重要なポイントを箇条書きでまとめ、Markdown形式で回答してください。"@
}

/// The prompt of the proofreading action.
pub open spec fn proofread_prompt_text() -> Seq<char> {
    "以下のMarkdownを校正してください。誤字脱字の修正・文体の統一・読みやすさの改善を行い、Markdownの書式は維持したまま修正済みの全文を返してください。"@
}

/// The prompt of the translate action for language `lang`.
pub open spec fn translate_prompt_text(lang: Seq<char>) -> Seq<char> {
    "以下のMarkdownを"@ + lang + "に翻訳してください。Markdownの書式（見出し・リスト・コードブロック等）は維持してください。"@
}

/// The message sent: the prompt, a rule, then the document.
pub open spec fn spec_request_content(prompt: Seq<char>, markdown: Seq<char>) -> Seq<char> {
    prompt + "\n\n---\n\n"@ + markdown
}

/// Whether a status line reports an error.
pub open spec fn is_error_status(s: Seq<char>) -> bool {
    s.len() >= 5 && s.subrange(0, 5) == "Error"@
}

impl AiPanel {
    /// A hidden panel with an empty prompt, English selected, idle.
    pub fn new() -> (r: AiPanel)
        ensures
            !r.visible,
            r.prompt@ == Seq::<char>::empty(),
            r.translate_lang == 0,
            r.status is None,
            !r.sending,
    {
        AiPanel { visible: false, prompt: String::new(), translate_lang: 0, status: None, sending: false }
    }

    /// Whether the actions can be used: nothing under way and an API key set.
    pub fn can_send(&self, api_key: &str) -> (r: bool)
        ensures
            r == (!self.sending && api_key@.len() > 0),
    {
        !self.sending && !api_key.is_empty()
    }

    /// The prompt of the summary action.
    pub fn summary_prompt() -> (r: String)
        ensures
            r@ == summary_prompt_text(),
    {
        "以下のMarkdownを日本語で要約してください。重要なポイントを箇条書きでまとめ、Markdown形式で回答してください。".to_owned()
    }

    /// The prompt of the proofreading action.
    pub fn proofread_prompt() -> (r: String)
        ensures
            r@ == proofread_prompt_text(),
    {
        "以下のMarkdownを校正してください。誤字脱字の修正・文体の統一・読みやすさの改善を行い、Markdownの書式は維持したまま修正済みの全文を返してください。".to_owned()
    }

    /// The prompt of the translate action, for the selected language.
    pub fn translate_prompt(&self) -> (r: String)
        requires
            self.translate_lang < LANG_COUNT,
        ensures
            r@ == translate_prompt_text(spec_lang_name(self.translate_lang as int)),
    {
        let head = concat("以下のMarkdownを", lang_name(self.translate_lang));
        concat(head.as_str(), "に翻訳してください。Markdownの書式（見出し・リスト・コードブロック等）は維持してください。")
    }

    /// A request goes out: the status is cleared until the reply.
    pub fn begin_send(&mut self)
        ensures
            final(self).sending,
            final(self).status is None,
            final(self).visible == old(self).visible,
            final(self).prompt == old(self).prompt,
            final(self).translate_lang == old(self).translate_lang,
    {
        self.sending = true;
        self.status = None;
    }

    /// The reply arrived: on success the document is replaced by it and the
    /// status says done; on failure the status carries the error and the
    /// document stays. Returns whether the document was replaced.
    pub fn finish(&mut self, result: Result<String, String>, markdown: &mut String) -> (replaced: bool)
        ensures
            !final(self).sending,
            final(self).visible == old(self).visible,
            final(self).prompt == old(self).prompt,
            final(self).translate_lang == old(self).translate_lang,
            match result {
                Ok(text) => replaced && final(markdown)@ == text@ && (final(self).status matches Some(s) && s@
                    == "完了"@),
                Err(e) => !replaced && final(markdown)@ == old(markdown)@ && (final(self).status matches Some(s)
                    && s@ == "Error: "@ + e@),
            },
    {
        self.sending = false;
        match result {
            Ok(text) => {
                *markdown = text;
                self.status = Some("完了".to_owned());
                true
            },
            Err(e) => {
                self.status = Some(concat("Error: ", e.as_str()));
                false
            },
        }
    }

    /// Whether the status line reports an error.
    pub fn status_is_error(&self) -> (r: bool)
        ensures
            r == (self.status matches Some(s) && is_error_status(s@)),
    {
        match &self.status {
            None => false,
            Some(s) => starts_with_error(s.as_str()),
        }
    }
}

/// Whether `s` starts with `Error`.
fn starts_with_error(s: &str) -> (r: bool)
    ensures
        r == is_error_status(s@),
{
    proof {
        reveal_strlit("Error");
    }
    let cs = crate::text_util::chars_of(s);
    if cs.len() < 5 {
        return false;
    }
    let r = cs[0] == 'E' && cs[1] == 'r' && cs[2] == 'r' && cs[3] == 'o' && cs[4] == 'r';
    proof {
        if r {
            assert(s@.subrange(0, 5) =~= "Error"@);
        } else {
            if s@.subrange(0, 5) == "Error"@ {
                assert(s@.subrange(0, 5)[0] == 'E');
                assert(s@.subrange(0, 5)[1] == 'r');
                assert(s@.subrange(0, 5)[2] == 'r');
                assert(s@.subrange(0, 5)[3] == 'o');
                assert(s@.subrange(0, 5)[4] == 'r');
            }
        }
    }
    r
}

/// The message sent with a request: the prompt, a rule, then the document.
pub fn request_content(prompt: &str, markdown: &str) -> (r: String)
    ensures
        r@ == spec_request_content(prompt@, markdown@),
{
    let head = concat(prompt, "\n\n---\n\n");
    concat(head.as_str(), markdown)
}

} // verus!
