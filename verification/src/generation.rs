//! What a client asks for: the body of a completion request.

use vstd::prelude::*;
use vstd::slice::slice_to_vec;
use vstd::string::*;
use vstd::utf8::*;

use crate::json::{
    document, first_named, item_views, law_member_is_found_by_its_name, Json, JsonView,
};
use crate::lm::{
    decoded, encoded, last_of, law_tokens_spell_the_prompt, lemma_all_sayable, text_of, LanguageModel,
};
use crate::number::{decimal_of, law_count_is_close, law_small_count_is_exact};
use crate::render::{law_read_undoes_write, rendered, writable};
use crate::text::{decimal_text, utf8_text};
use crate::{DEFAULT_MAX_TOKENS, MAX_TOKENS_CAP};

verus! {

/// The parameters of a generation. Temperature and nucleus size are decimal numerals.
#[derive(Debug)]
pub struct GenParams {
    pub prompt: String,
    pub max_tokens: usize,
    pub temperature: String,
    pub top_p: String,
    pub seed: u64,
    pub stream: bool,
}

pub struct GenView {
    pub prompt: Seq<char>,
    pub max_tokens: nat,
    pub temperature: Seq<char>,
    pub top_p: Seq<char>,
    pub seed: nat,
    pub stream: bool,
}

impl View for GenParams {
    type V = GenView;

    open spec fn view(&self) -> GenView {
        GenView {
            prompt: self.prompt@,
            max_tokens: self.max_tokens as nat,
            temperature: self.temperature@,
            top_p: self.top_p@,
            seed: self.seed as nat,
            stream: self.stream,
        }
    }
}

/// The text of the member `key`, or `default` if there is none that is a string.
pub open spec fn text_field(j: JsonView, key: Seq<char>, default: Seq<char>) -> Seq<char> {
    match j.get(key) {
        Some(JsonView::String(text)) => text,
        _ => default,
    }
}

/// The numeral of the member `key`, or `default` if there is none that is a number.
pub open spec fn number_field(j: JsonView, key: Seq<char>, default: Seq<char>) -> Seq<char> {
    match j.get(key) {
        Some(JsonView::Number(text)) => text,
        _ => default,
    }
}

/// The count in the member `key`, up to `max`, or `default` if there is none that is a number.
pub open spec fn count_field(j: JsonView, key: Seq<char>, max: nat, default: nat) -> nat {
    match j.get(key) {
        Some(JsonView::Number(text)) => decimal_of(text).counted(max),
        _ => default,
    }
}

/// The truth of the member `key`, or `false`.
pub open spec fn flag_field(j: JsonView, key: Seq<char>) -> bool {
    match j.get(key) {
        Some(JsonView::Bool(b)) => b,
        _ => false,
    }
}

/// One line of a conversation.
pub open spec fn chat_line(message: JsonView) -> Seq<char> {
    text_field(message, "role"@, "user"@) + ": "@ + text_field(message, "content"@, ""@) + "\n"@
}

/// The lines of a conversation.
pub open spec fn chat_lines(messages: Seq<JsonView>) -> Seq<char>
    decreases messages.len(),
{
    if messages.len() == 0 {
        seq![]
    } else {
        chat_lines(messages.drop_last()) + chat_line(messages.last())
    }
}

/// The prompt of a request.
pub open spec fn prompt_of(j: JsonView, chat: bool) -> Result<Seq<char>, Seq<char>> {
    if chat {
        match j.get("messages"@) {
            Some(JsonView::Array(messages)) => Ok(chat_lines(messages) + "assistant: "@),
            _ => Err("messages required"@),
        }
    } else {
        Ok(text_field(j, "prompt"@, ""@))
    }
}

pub open spec fn at_most(n: nat, max: nat) -> nat {
    if n > max {
        max
    } else {
        n
    }
}

/// The parameters in a request.
pub open spec fn params_of(j: JsonView, chat: bool) -> Result<GenView, Seq<char>> {
    match prompt_of(j, chat) {
        Ok(prompt) => Ok(
            GenView {
                prompt,
                max_tokens: at_most(
                    count_field(
                        j,
                        "max_tokens"@,
                        usize::MAX as nat,
                        DEFAULT_MAX_TOKENS as nat,
                    ),
                    MAX_TOKENS_CAP as nat,
                ),
                temperature: number_field(j, "temperature"@, "1.0"@),
                top_p: number_field(j, "top_p"@, "1.0"@),
                seed: count_field(j, "seed"@, u64::MAX as nat, 1),
                stream: flag_field(j, "stream"@),
            },
        ),
        Err(message) => Err(message),
    }
}

/// What a body asks for, or why it does not ask for anything.
pub open spec fn request_of(body: Seq<u8>, chat: bool) -> Result<GenView, Seq<char>> {
    if !valid_utf8(body) {
        Err("invalid utf-8"@)
    } else if body.len() == 0 {
        Err("empty body"@)
    } else {
        match document(body) {
            Ok(j) => params_of(j, chat),
            Err(message) => Err(message),
        }
    }
}

fn text_or<'a>(j: &'a Json, key: &str, default: &'a str) -> (r: &'a str)
    ensures
        r@ == text_field(j@, key@, default@),
{
    match j.get(key) {
        Some(v) => match v.as_str() {
            Some(text) => text,
            None => default,
        },
        None => default,
    }
}

fn number_or(j: &Json, key: &str, default: &str) -> (r: String)
    ensures
        r@ == number_field(j@, key@, default@),
{
    match j.get(key) {
        Some(v) => match v.as_number() {
            Some(text) => text.to_string(),
            None => default.to_string(),
        },
        None => default.to_string(),
    }
}

/// The prompt of a conversation: a line for each message, and the start of the answer.
fn chat_prompt(messages: &[Json]) -> (r: String)
    ensures
        r@ == chat_lines(item_views(messages@)) + "assistant: "@,
{
    let mut p = String::new();
    let ghost views = item_views(messages@);
    let mut k: usize = 0;
    assert(views.take(0) =~= seq![]);
    while k < messages.len()
        invariant
            k <= messages@.len(),
            views == item_views(messages@),
            p@ == chat_lines(views.take(k as int)),
        decreases messages@.len() - k,
    {
        let m = &messages[k];
        let ghost before = p@;
        p.append(text_or(m, "role", "user"));
        p.append(": ");
        p.append(text_or(m, "content", ""));
        p.append("\n");
        proof {
            assert(views.take(k + 1).drop_last() =~= views.take(k as int));
            assert(views.take(k + 1).last() == m@);
            assert(p@ =~= before + chat_line(m@));
        }
        k += 1;
    }
    assert(views.take(k as int) =~= views);
    p.append("assistant: ");
    p
}

fn prompt(j: &Json, chat: bool) -> (r: Result<String, String>)
    ensures
        match r {
            Ok(p) => prompt_of(j@, chat) == Ok::<Seq<char>, Seq<char>>(p@),
            Err(m) => prompt_of(j@, chat) == Err::<Seq<char>, Seq<char>>(m@),
        },
{
    if chat {
        match j.get("messages") {
            Some(v) => match v.as_array() {
                Some(messages) => Ok(chat_prompt(messages)),
                None => Err("messages required".to_string()),
            },
            None => Err("messages required".to_string()),
        }
    } else {
        Ok(text_or(j, "prompt", "").to_string())
    }
}

/// How many tokens a request gets.
fn token_limit(j: &Json) -> (r: usize)
    ensures
        r == at_most(
            count_field(j@, "max_tokens"@, usize::MAX as nat, DEFAULT_MAX_TOKENS as nat),
            MAX_TOKENS_CAP as nat,
        ),
{
    let asked = match j.get("max_tokens") {
        Some(v) => match v.as_usize() {
            Some(n) => n,
            None => DEFAULT_MAX_TOKENS,
        },
        None => DEFAULT_MAX_TOKENS,
    };
    if asked > MAX_TOKENS_CAP {
        MAX_TOKENS_CAP
    } else {
        asked
    }
}

/// The seed of a request.
fn seed(j: &Json) -> (r: u64)
    ensures
        r == count_field(j@, "seed"@, u64::MAX as nat, 1),
{
    match j.get("seed") {
        Some(v) => match v.as_u64() {
            Some(n) => n,
            None => 1,
        },
        None => 1,
    }
}

/// The truth of the member `key`, or `false`.
fn flag(j: &Json, key: &str) -> (r: bool)
    ensures
        r == flag_field(j@, key@),
{
    match j.get(key) {
        Some(v) => match v.as_bool() {
            Some(b) => b,
            None => false,
        },
        None => false,
    }
}

/// The parameters in a request.
fn params(j: &Json, chat: bool) -> (r: Result<GenParams, String>)
    ensures
        match r {
            Ok(params) => params_of(j@, chat) == Ok::<GenView, Seq<char>>(params@),
            Err(message) => params_of(j@, chat) == Err::<GenView, Seq<char>>(message@),
        },
{
    let prompt = match prompt(j, chat) {
        Ok(prompt) => prompt,
        Err(message) => return Err(message),
    };
    Ok(
        GenParams {
            prompt,
            max_tokens: token_limit(j),
            temperature: number_or(j, "temperature", "1.0"),
            top_p: number_or(j, "top_p", "1.0"),
            seed: seed(j),
            stream: flag(j, "stream"),
        },
    )
}

/// Reads the body of a completion request, or with `chat` of a chat completion request. The number
/// of tokens is capped.
pub fn parse_gen(body: &[u8], chat: bool) -> (r: Result<GenParams, String>)
    ensures
        match r {
            Ok(params) => request_of(body@, chat) == Ok::<GenView, Seq<char>>(params@),
            Err(message) => request_of(body@, chat) == Err::<GenView, Seq<char>>(message@),
        },
{
    let s = match utf8_text(body) {
        Ok(s) => s,
        Err(_) => return Err("invalid utf-8".to_string()),
    };
    if body.len() == 0 {
        return Err("empty body".to_string());
    }
    match Json::parse(s) {
        Ok(j) => params(&j, chat),
        Err(e) => Err(e.0),
    }
}

/// No request gets more than the cap, whatever it asks for.
pub proof fn law_max_tokens_is_capped(body: Seq<u8>, chat: bool)
    ensures
        request_of(body, chat) matches Ok(params) ==> params.max_tokens <= MAX_TOKENS_CAP,
{
}

/// A text that is generated token by token, outside the queue.
#[derive(Debug)]
pub struct Generation {
    /// The tokens of the prompt that the model looks at, and those chosen so far.
    pub ids: Vec<usize>,
    pub text: String,
    /// How many tokens are still wanted.
    pub left: usize,
}

pub struct GenerationView {
    pub ids: Seq<usize>,
    pub text: Seq<char>,
    pub left: nat,
}

impl View for Generation {
    type V = GenerationView;

    open spec fn view(&self) -> GenerationView {
        GenerationView { ids: self.ids@, text: self.text@, left: self.left as nat }
    }
}

impl GenerationView {
    /// The generation with one more token.
    pub open spec fn with(self, vocab: Seq<u8>, id: usize) -> GenerationView {
        GenerationView {
            ids: self.ids.push(id),
            text: self.text.push(decoded(vocab, id) as char),
            left: (self.left - 1) as nat,
        }
    }

    /// The generation with more tokens.
    pub open spec fn with_all(self, vocab: Seq<u8>, ids: Seq<usize>) -> GenerationView
        decreases ids.len(),
    {
        if ids.len() == 0 {
            self
        } else {
            self.with_all(vocab, ids.drop_last()).with(vocab, ids.last())
        }
    }
}

impl Generation {
    /// A generation of `max_tokens` tokens behind a prompt.
    pub fn new(lm: &LanguageModel, prompt: &str, max_tokens: usize) -> (r: Generation)
        ensures
            r@ == (GenerationView {
                ids: last_of(
                    encoded(lm.vocab@, prompt.spec_bytes()),
                    lm.config.max_len as nat,
                ),
                text: seq![],
                left: max_tokens as nat,
            }),
    {
        let ids = lm.encode(prompt);
        let r = Generation {
            ids: slice_to_vec(lm.context(ids.as_slice())),
            text: String::new(),
            left: max_tokens,
        };
        assert(r@.text =~= seq![]);
        r
    }

    /// Is another token wanted?
    pub fn wants_token(&self) -> (r: bool)
        ensures
            r == (self@.left > 0),
    {
        self.left > 0
    }

    /// Takes in the token that the model chose.
    pub fn take(&mut self, lm: &LanguageModel, id: usize)
        requires
            old(self)@.left > 0,
            lm.vocab@.len() > 0,
        ensures
            final(self)@ == old(self)@.with(lm.vocab@, id),
    {
        self.ids.push(id);
        self.text.push(lm.decode_byte(id) as char);
        self.left = self.left - 1;
    }
}

/// A generation spells the tokens that it takes in, and wants one less for each.
pub proof fn law_generation_spells_its_tokens(g: GenerationView, vocab: Seq<u8>, ids: Seq<usize>)
    requires
        ids.len() <= g.left,
    ensures
        g.with_all(vocab, ids).text == g.text + text_of(vocab, ids),
        g.with_all(vocab, ids).ids == g.ids + ids,
        g.with_all(vocab, ids).left == g.left - ids.len(),
    decreases ids.len(),
{
    if ids.len() == 0 {
        assert(g.text + text_of(vocab, ids) =~= g.text);
        assert(g.ids + ids =~= g.ids);
    } else {
        law_generation_spells_its_tokens(g, vocab, ids.drop_last());
        assert(text_of(vocab, ids) =~= text_of(vocab, ids.drop_last()).push(
            decoded(vocab, ids.last()) as char,
        ));
        assert(g.text + text_of(vocab, ids) =~= g.with_all(vocab, ids).text);
        assert(g.ids + ids =~= g.with_all(vocab, ids).ids);
    }
}

/// A request for `n` tokens, written in digits, gets exactly `n` of them up to 256, and 256 if it
/// asks for more.
pub proof fn law_token_count_is_what_is_asked(body: Seq<u8>, chat: bool, j: JsonView, n: nat)
    requires
        document(body) == Ok::<JsonView, Seq<char>>(j),
        j.get("max_tokens"@) == Some(JsonView::Number(decimal_text(n))),
    ensures
        request_of(body, chat) matches Ok(params) ==> params.max_tokens == (if n <= 256 {
            n
        } else {
            256
        }),
        !chat && valid_utf8(body) && body.len() > 0 ==> request_of(body, chat) is Ok,
{
    law_small_count_is_exact(256, usize::MAX as nat);
    if n < 0x20_0000_0000_0000 {
        law_small_count_is_exact(n, usize::MAX as nat);
    } else {
        law_count_is_close(n, usize::MAX as nat);
    }
}

/// The same of a request as a client writes it: the members of an object, of which the first with
/// the name `max_tokens` is member `i`.
pub proof fn law_written_token_count_is_kept(
    pairs: Seq<(Seq<char>, JsonView)>,
    chat: bool,
    i: int,
    n: nat,
)
    requires
        writable(JsonView::Object(pairs)),
        first_named(pairs, "max_tokens"@, i),
        pairs[i].1 == JsonView::Number(decimal_text(n)),
    ensures
        ({
            let r = request_of(encode_utf8(rendered(JsonView::Object(pairs))), chat);
            &&& r matches Ok(params) ==> params.max_tokens == (if n <= 256 {
                n
            } else {
                256
            })
            &&& !chat ==> r is Ok
        }),
{
    let j = JsonView::Object(pairs);
    let text = rendered(j);
    law_read_undoes_write(j);
    law_member_is_found_by_its_name(pairs, "max_tokens"@);
    encode_utf8_valid_utf8(text);
    lemma_body_is_not_empty(text);
    law_token_count_is_what_is_asked(encode_utf8(text), chat, j, n);
}

/// A text that is not empty has bytes.
proof fn lemma_body_is_not_empty(text: Seq<char>)
    requires
        text.len() > 0,
    ensures
        encode_utf8(text).len() > 0,
{
    encode_utf8_decode_utf8(text);
    if encode_utf8(text).len() == 0 {
        assert(encode_utf8(text) =~= encode_utf8(seq![]));
        encode_utf8_decode_utf8(seq![]);
    }
}

/// Each member of a completion request decides one thing and no other, and a request that lacks it
/// gets what is usual: no text, 16 tokens, temperature and nucleus size 1.0, seed 1, no stream.
pub proof fn law_request_says_what_it_wants(body: Seq<u8>, chat: bool, j: JsonView)
    requires
        document(body) == Ok::<JsonView, Seq<char>>(j),
        valid_utf8(body),
        body.len() > 0,
    ensures
        !chat ==> request_of(body, chat) is Ok,
        chat ==> (request_of(body, chat) is Ok <==> j.get("messages"@) matches Some(
            JsonView::Array(_),
        )),
        request_of(body, chat) matches Err(message) ==> message == "messages required"@,
        request_of(body, chat) matches Ok(params) ==> {
            &&& !chat ==> (j.get("prompt"@) matches Some(JsonView::String(text)) ==> params.prompt
                == text)
            &&& !chat && !(j.get("prompt"@) matches Some(JsonView::String(_)))
                ==> params.prompt.len() == 0
            &&& !(j.get("max_tokens"@) matches Some(JsonView::Number(_))) ==> params.max_tokens == 16
            &&& (j.get("temperature"@) matches Some(JsonView::Number(text)) ==> params.temperature == text)
            &&& !(j.get("temperature"@) matches Some(JsonView::Number(_))) ==> params.temperature
                == "1.0"@
            &&& (j.get("top_p"@) matches Some(JsonView::Number(text)) ==> params.top_p == text)
            &&& !(j.get("top_p"@) matches Some(JsonView::Number(_))) ==> params.top_p == "1.0"@
            &&& !(j.get("seed"@) matches Some(JsonView::Number(_))) ==> params.seed == 1
            &&& params.stream <==> j.get("stream"@) == Some(JsonView::Bool(true))
        },
{
    reveal_strlit("");
}

/// A seed below 2^53, written in digits, is taken as it is.
pub proof fn law_seed_is_what_is_asked(body: Seq<u8>, chat: bool, j: JsonView, n: nat)
    requires
        document(body) == Ok::<JsonView, Seq<char>>(j),
        j.get("seed"@) == Some(JsonView::Number(decimal_text(n))),
        n < 0x20_0000_0000_0000,
    ensures
        request_of(body, chat) matches Ok(params) ==> params.seed == n,
{
    law_small_count_is_exact(n, u64::MAX as nat);
}

/// Does a message have this role and this content? One without a role is the user's, and one without
/// content is empty.
pub open spec fn says(message: JsonView, role: Seq<char>, content: Seq<char>) -> bool {
    &&& message.get("role"@) == Some(JsonView::String(role)) || (!(message.get("role"@) matches Some(
        JsonView::String(_),
    )) && role == "user"@)
    &&& message.get("content"@) == Some(JsonView::String(content)) || (!(message.get(
        "content"@,
    ) matches Some(JsonView::String(_))) && content.len() == 0)
}

/// The prompt of a conversation of some messages with roles and contents: a line for each in order,
/// the role before the content, and at the end the assistant's turn.
pub proof fn law_conversation_is_written_line_by_line(
    messages: Seq<JsonView>,
    roles: Seq<Seq<char>>,
    contents: Seq<Seq<char>>,
)
    requires
        roles.len() == messages.len(),
        contents.len() == messages.len(),
        forall|k: int|
            0 <= k < messages.len() ==> says(#[trigger] messages[k], roles[k], contents[k]),
    ensures
        forall|j: JsonView|
            #[trigger] j.get("messages"@) == Some(JsonView::Array(messages)) ==> prompt_of(j, true)
                == Ok::<Seq<char>, Seq<char>>(
                Seq::new(
                    messages.len(),
                    |k: int| roles[k] + seq![':', ' '] + contents[k] + seq!['\n'],
                ).flatten() + "assistant: "@,
            ),
{
    lemma_chat_lines(messages, roles, contents);
}

proof fn lemma_chat_lines(
    messages: Seq<JsonView>,
    roles: Seq<Seq<char>>,
    contents: Seq<Seq<char>>,
)
    requires
        roles.len() == messages.len(),
        contents.len() == messages.len(),
        forall|k: int|
            0 <= k < messages.len() ==> says(#[trigger] messages[k], roles[k], contents[k]),
    ensures
        chat_lines(messages) == Seq::new(
            messages.len(),
            |k: int| roles[k] + seq![':', ' '] + contents[k] + seq!['\n'],
        ).flatten(),
    decreases messages.len(),
{
    let lines = Seq::new(
        messages.len(),
        |k: int| roles[k] + seq![':', ' '] + contents[k] + seq!['\n'],
    );
    if messages.len() > 0 {
        let (m, r, c) = (messages.drop_last(), roles.drop_last(), contents.drop_last());
        assert forall|k: int| 0 <= k < m.len() implies says(#[trigger] m[k], r[k], c[k]) by {
            assert(m[k] == messages[k]);
        }
        lemma_chat_lines(m, r, c);
        let front = Seq::new(m.len(), |k: int| r[k] + seq![':', ' '] + c[k] + seq!['\n']);
        assert(lines.drop_last() =~= front);
        let last = messages[messages.len() - 1];
        assert(last == messages.last());
        assert(says(last, roles.last(), contents.last()));
        reveal_strlit("");
        assert(contents.last().len() == 0 ==> contents.last() =~= ""@);
        reveal_strlit(": ");
        reveal_strlit("\n");
        assert(": "@ =~= seq![':', ' ']);
        assert("\n"@ =~= seq!['\n']);
        assert(chat_line(last) == lines.last());
        lines.lemma_flatten_and_flatten_alt_are_equivalent();
        front.lemma_flatten_and_flatten_alt_are_equivalent();
    } else {
        assert(lines =~= seq![]);
        assert(chat_lines(messages) =~= lines.flatten());
    }
}

/// A generation begins behind the end of its prompt, with no text.
pub proof fn law_new_generation_is_the_end_of_its_prompt(
    g: GenerationView,
    vocab: Seq<u8>,
    prompt: Seq<char>,
    max_len: nat,
)
    requires
        vocab.len() <= usize::MAX,
        prompt.len() > 0,
        encode_utf8(prompt).len() <= max_len,
        forall|i: int|
            0 <= i < encode_utf8(prompt).len() ==> vocab.contains(#[trigger] encode_utf8(prompt)[i]),
        g.ids == last_of(encoded(vocab, encode_utf8(prompt)), max_len),
    ensures
        g.ids.map_values(|id: usize| vocab[id as int]) == encode_utf8(prompt),
{
    lemma_body_is_not_empty(prompt);
    lemma_all_sayable(vocab, encode_utf8(prompt));
    law_tokens_spell_the_prompt(vocab, encode_utf8(prompt));
    assert(g.ids.map_values(|id: usize| vocab[id as int]) =~= encode_utf8(prompt));
}

/// A body that is not UTF-8, is empty or is not JSON asks for nothing, and the answer says why.
pub proof fn law_bad_body_asks_for_nothing(body: Seq<u8>, chat: bool)
    ensures
        !valid_utf8(body) ==> request_of(body, chat) == Err::<GenView, Seq<char>>("invalid utf-8"@),
        body.len() == 0 ==> request_of(body, chat) == Err::<GenView, Seq<char>>("empty body"@),
        valid_utf8(body) && body.len() > 0 ==> (document(body) matches Err(message) ==> request_of(
            body,
            chat,
        ) == Err::<GenView, Seq<char>>(message)),
{
    if body.len() == 0 {
        assert(body =~= encode_utf8(seq![]));
        encode_utf8_valid_utf8(seq![]);
    }
}

/// The number of tokens is the count that was asked for, whatever numeral it was written as, but 256
/// at most; the seed is the count that was asked for, up to the end of the machine's range.
pub proof fn law_counts_are_those_of_the_numerals(
    body: Seq<u8>,
    chat: bool,
    j: JsonView,
    tokens: Seq<char>,
    seed: Seq<char>,
)
    requires
        document(body) == Ok::<JsonView, Seq<char>>(j),
    ensures
        request_of(body, chat) matches Ok(params) ==> {
            &&& j.get("max_tokens"@) == Some(JsonView::Number(tokens)) ==> params.max_tokens
                == decimal_of(tokens).counted(256)
            &&& j.get("seed"@) == Some(JsonView::Number(seed)) ==> params.seed == decimal_of(
                seed,
            ).counted(0xffff_ffff_ffff_ffff)
        },
{
}

} // verus!
