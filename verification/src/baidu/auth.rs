//! Access tokens: how long one is used, and what is asked for a new one.
use super::errors::{BaiduError, ErrorView};
use crate::text::opt_text;
use vstd::prelude::*;

verus! {

/// A token that has less than so many seconds left is not used any more.
pub const REFRESH_MARGIN_SECS: u64 = 3600;

/// A token that the service gives.
#[derive(Debug)]
pub struct TokenResponse {
    pub access_token: String,
    pub expires_in: u64,
}

/// Where tokens come from.
pub trait TokenFetcher: Sized {
    /// It can be asked for a token.
    spec fn can_fetch(&self) -> bool;

    /// What asking it may come to, and what it is afterwards.
    spec fn may_give(&self, r: Result<TokenResponse, BaiduError>, after: Self) -> bool;

    /// Asks for a token.
    fn fetch(&mut self) -> (r: Result<TokenResponse, BaiduError>)
        requires
            old(self).can_fetch(),
        ensures
            old(self).may_give(r, *final(self)),
    ;
}

/// A token that is kept, and the time at which it ends, in seconds since 1970.
#[derive(Debug)]
pub struct CachedToken {
    pub token: String,
    pub expires_at: u64,
}

/// Keeps a token while it can be used.
#[derive(Debug)]
pub struct TokenProvider {
    pub cache: Option<CachedToken>,
}

/// The token that can be used at a time.
pub open spec fn usable_token(cache: Option<CachedToken>, now: u64) -> Option<Seq<char>> {
    match cache {
        Some(t) => if t.expires_at > now + REFRESH_MARGIN_SECS {
            Some(t.token@)
        } else {
            None
        },
        None => None,
    }
}

/// What is kept of a token that was asked for at a time: until its time is over, or
/// for good when that lies beyond all times.
pub open spec fn keeps(cache: Option<CachedToken>, resp: TokenResponse, now: u64) -> bool {
    cache matches Some(t) && t.token@ == resp.access_token@ && t.expires_at == (if now
        + resp.expires_in <= u64::MAX {
        (now + resp.expires_in) as u64
    } else {
        u64::MAX
    })
}

/// What asking for a token comes to when none is at hand: the token of the fetcher,
/// which is kept, or its error, which changes nothing.
pub open spec fn fetched(
    got: Result<TokenResponse, BaiduError>,
    r: Result<String, BaiduError>,
    before: Option<CachedToken>,
    after: Option<CachedToken>,
    now: u64,
) -> bool {
    match got {
        Ok(resp) => r matches Ok(s) && s@ == resp.access_token@ && keeps(after, resp, now),
        Err(e) => r matches Err(x) && x == e && after == before,
    }
}

impl TokenProvider {
    /// No token is kept.
    pub fn new() -> (r: TokenProvider)
        ensures
            r.cache is None,
    {
        TokenProvider { cache: None }
    }

    /// The token that can be used now; none when a new one has to be asked for.
    pub fn cached_token(&self, now: u64) -> (r: Option<String>)
        requires
            now + REFRESH_MARGIN_SECS <= u64::MAX,
        ensures
            opt_text(r) == usable_token(self.cache, now),
    {
        match &self.cache {
            Some(t) => if t.expires_at > now + REFRESH_MARGIN_SECS {
                Some(t.token.clone())
            } else {
                None
            },
            None => None,
        }
    }

    /// Keeps a token that was asked for at a time, and gives it.
    pub fn store(&mut self, resp: TokenResponse, now: u64) -> (r: String)
        ensures
            r@ == resp.access_token@,
            keeps(final(self).cache, resp, now),
    {
        let token = resp.access_token.clone();
        let expires_at: u64 = now.saturating_add(resp.expires_in);
        self.cache = Some(CachedToken { token: resp.access_token, expires_at });
        token
    }

    /// The token to use now: the one that is kept while more than the margin is left
    /// of its time, and else a new one from the fetcher.
    pub fn get_token<F: TokenFetcher>(&mut self, fetcher: &mut F, now: u64) -> (r: Result<
        String,
        BaiduError,
    >)
        requires
            now + REFRESH_MARGIN_SECS <= u64::MAX,
            usable_token(old(self).cache, now) is None ==> old(fetcher).can_fetch(),
        ensures
            usable_token(old(self).cache, now) matches Some(t) ==> (r matches Ok(s) && s@ == t)
                && *final(self) == *old(self) && *final(fetcher) == *old(fetcher),
            usable_token(old(self).cache, now) is None ==> exists|
                got: Result<TokenResponse, BaiduError>,
            | #[trigger]
                old(fetcher).may_give(got, *final(fetcher)) && fetched(
                    got,
                    r,
                    old(self).cache,
                    final(self).cache,
                    now,
                ),
    {
        if let Some(t) = self.cached_token(now) {
            return Ok(t);
        }
        let got = fetcher.fetch();
        assert(old(fetcher).may_give(got, *fetcher));
        match got {
            Ok(resp) => Ok(self.store(resp, now)),
            Err(e) => Err(e),
        }
    }
}

/// A token that was asked for is used again exactly while more than the margin is
/// left of its time; one that lasts no longer than the margin is asked for each time.
pub proof fn lemma_token_reused(
    cache: Option<CachedToken>,
    resp: TokenResponse,
    asked: u64,
    now: u64,
)
    requires
        keeps(cache, resp, asked),
        asked + resp.expires_in <= u64::MAX,
        now >= asked,
    ensures
        usable_token(cache, now) == (if now - asked < resp.expires_in - REFRESH_MARGIN_SECS {
            Some(resp.access_token@)
        } else {
            None
        }),
        resp.expires_in <= REFRESH_MARGIN_SECS ==> usable_token(cache, now) is None,
{
}

/// Gives the same token each time, and counts how often.
#[derive(Debug)]
pub struct MockTokenFetcher {
    pub calls: u32,
    pub token: String,
    pub expires_in: u64,
}

impl TokenFetcher for MockTokenFetcher {
    open spec fn can_fetch(&self) -> bool {
        self.calls < u32::MAX
    }

    open spec fn may_give(
        &self,
        r: Result<TokenResponse, BaiduError>,
        after: MockTokenFetcher,
    ) -> bool {
        &&& r matches Ok(t) && t.access_token@ == self.token@ && t.expires_in == self.expires_in
        &&& after == (MockTokenFetcher { calls: (self.calls + 1) as u32, ..*self })
    }

    fn fetch(&mut self) -> (r: Result<TokenResponse, BaiduError>) {
        self.calls = self.calls + 1;
        Ok(TokenResponse { access_token: self.token.clone(), expires_in: self.expires_in })
    }
}

/// Asks the service for tokens.
#[derive(Debug)]
pub struct HttpTokenFetcher {
    pub api_key: String,
    pub secret_key: String,
}

/// Where a token is asked for.
pub open spec fn token_address(api_key: Seq<char>, secret_key: Seq<char>) -> Seq<char> {
    "https://aip.baidubce.com/oauth/2.0/token?grant_type=client_credentials&client_id="@ + api_key
        + "&client_secret="@ + secret_key
}

impl HttpTokenFetcher {
    /// Asks with a pair of keys.
    pub fn new(api_key: String, secret_key: String) -> (r: HttpTokenFetcher)
        ensures
            r.api_key == api_key,
            r.secret_key == secret_key,
    {
        HttpTokenFetcher { api_key, secret_key }
    }

    /// Where a token is asked for.
    pub fn url(&self) -> (r: String)
        ensures
            r@ == token_address(self.api_key@, self.secret_key@),
    {
        let mut s =
            "https://aip.baidubce.com/oauth/2.0/token?grant_type=client_credentials&client_id=".to_owned();
        s.push_str(self.api_key.as_str());
        s.push_str("&client_secret=");
        s.push_str(self.secret_key.as_str());
        s
    }
}

/// Refuses a token that is empty.
pub fn accept_token(resp: TokenResponse) -> (r: Result<TokenResponse, BaiduError>)
    ensures
        r is Ok <==> resp.access_token@.len() > 0,
        r matches Ok(t) ==> t == resp,
        r matches Err(e) ==> e@ == (ErrorView::Auth {
            code: (-1) as i64,
            message: "返回的 access_token 为空"@,
        }),
{
    if resp.access_token.as_str().unicode_len() == 0 {
        return Err(
            BaiduError::Auth { code: -1, message: "返回的 access_token 为空".to_owned() },
        );
    }
    Ok(resp)
}

} // verus!
