//! What running a script decides before and after the request is sent:
//! which blocks to run, under which key a response is cached and for how long.

use vstd::prelude::*;
use crate::ast::{CacheDuration, HttpMethods, Program, RequestBlock, ResponseBlock};
use crate::cache::{is_fresh, Cache, CacheEntry, CacheEntryView};
use crate::json::Json;
use crate::text::{push_text, to_text};

verus! {

/// The name of a method as it is written in a request.
pub open spec fn method_name(method: HttpMethods) -> Seq<char> {
    match method {
        HttpMethods::Get => "GET"@,
        HttpMethods::Post => "POST"@,
        HttpMethods::Put => "PUT"@,
        HttpMethods::Delete => "DELETE"@,
        HttpMethods::Patch => "PATCH"@,
    }
}

/// The name of a method.
pub fn method_to_string(method: &HttpMethods) -> (r: &'static str)
    ensures
        r@ == method_name(*method),
{
    match method {
        HttpMethods::Get => "GET",
        HttpMethods::Post => "POST",
        HttpMethods::Put => "PUT",
        HttpMethods::Delete => "DELETE",
        HttpMethods::Patch => "PATCH",
    }
}

/// The key under which the response to a request is cached: its method, a
/// colon and its URL.
pub open spec fn cache_key_of(method: HttpMethods, url: Seq<char>) -> Seq<char> {
    method_name(method) + seq![':'] + url
}

/// The key under which the response to a request is cached.
pub fn cache_key(request: &RequestBlock) -> (r: String)
    ensures
        r@ == cache_key_of(request.method, request.url@),
{
    let mut out: Vec<char> = Vec::new();
    push_text(&mut out, method_to_string(&request.method));
    out.push(':');
    push_text(&mut out, request.url.as_str());
    assert(out@ =~= cache_key_of(request.method, request.url@));
    to_text(&out)
}

/// For how many seconds a response may be served from the cache. Without a
/// duration it is 0 seconds: such a response is never served again.
pub open spec fn ttl_of(cache: CacheDuration) -> u64 {
    match cache {
        CacheDuration::NoCache => 0,
        CacheDuration::DurationInSeconds(seconds) => seconds,
    }
}

/// For how many seconds a response may be served from the cache.
pub fn ttl_seconds(cache: &CacheDuration) -> (r: u64)
    ensures
        r == ttl_of(*cache),
{
    match cache {
        CacheDuration::NoCache => 0,
        CacheDuration::DurationInSeconds(seconds) => *seconds,
    }
}

/// The block that a script lacks to be run.
#[derive(Debug, Clone, Copy, PartialEq, Eq, Structural)]
pub enum MissingBlock {
    Request,
    Response,
}

/// The request to send and the query to run on its response: the first of
/// each. A script without a request lacks the request, whatever else it
/// lacks; one with a request and without a response lacks the response.
pub fn blocks_to_run(program: &Program) -> (r: Result<
    (&RequestBlock, &ResponseBlock),
    MissingBlock,
>)
    ensures
        match r {
            Ok((request, response)) => program.request_blocks.len() > 0
                && program.response_blocks.len() > 0 && *request == program.request_blocks@[0]
                && *response == program.response_blocks@[0],
            Err(MissingBlock::Request) => program.request_blocks.len() == 0,
            Err(MissingBlock::Response) => program.request_blocks.len() > 0
                && program.response_blocks.len() == 0,
        },
{
    if program.request_blocks.len() == 0 {
        Err(MissingBlock::Request)
    } else if program.response_blocks.len() == 0 {
        Err(MissingBlock::Response)
    } else {
        Ok((&program.request_blocks[0], &program.response_blocks[0]))
    }
}

/// The response to a request as the cache holds it, while it is fresh at
/// the time `now`.
pub fn try_cache<'a>(cache: &'a Cache, request: &RequestBlock, now: u128) -> (r: Option<
    &'a CacheEntry,
>)
    ensures
        match r {
            Some(found) => cache.entry(cache_key_of(request.method, request.url@)) == Some(found@)
                && is_fresh(found@, now),
            None => match cache.entry(cache_key_of(request.method, request.url@)) {
                Some(kept) => !is_fresh(kept, now),
                None => true,
            },
        },
{
    let key = cache_key(request);
    cache.get(key.as_str(), now)
}

/// Stores the response to a request, received at the time `now`, for as
/// long as the request allows.
pub fn store_cache(cache: &mut Cache, request: &RequestBlock, body: Json, status: u16, now: u128)
    ensures
        forall|other: Seq<char>|
            #[trigger] final(cache).entry(other) == if other == cache_key_of(
                request.method,
                request.url@,
            ) {
                Some(
                    CacheEntryView {
                        value: body@,
                        status_code: status,
                        stored_at: now,
                        ttl: ttl_of(request.cache),
                    },
                )
            } else {
                old(cache).entry(other)
            },
{
    let entry = CacheEntry {
        value: body,
        status_code: status,
        stored_at: now,
        ttl: ttl_seconds(&request.cache),
    };
    cache.insert(cache_key(request), entry);
}

} // verus!
