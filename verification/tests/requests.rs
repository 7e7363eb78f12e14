use password_vault::auth::{get_login, ApiKey, ApiKeyError, LoginDecision};
use password_vault::cors::CORS;
use password_vault::models::{
    AccountRow, Info, LoginInput, LoginRow, PasswordDTO, PasswordInput, PasswordRow, SimplePasswordDTO, WebsiteDTO,
    WebsiteInput,
};
use password_vault::passwords::{get_password_with_id, get_passwords_with_website, new_password, newest_password};
use password_vault::websites::{first_website_like, get_website_by_name, get_websites, new_website};

const HELLO_HASH: &str = "2cf24dba5fb0a30e26e83b2ac5b9e29e1b161e5c1fa7425e73043362938b9824";

fn account(id: &str, username: Option<&str>, password: Option<&str>) -> AccountRow {
    AccountRow {
        id: id.to_string(),
        username: username.map(|s| s.to_string()),
        password: password.map(|s| s.to_string()),
    }
}

fn login(token: &str, account: &str) -> LoginRow {
    LoginRow { token: token.to_string(), account: account.to_string() }
}

fn stored(id: i32, username: &str, password: &str, website: i32, account: &str) -> PasswordRow {
    PasswordRow {
        id,
        username: username.to_string(),
        password: password.to_string(),
        nonce: String::new(),
        website,
        account: account.to_string(),
    }
}

fn site(id: i32, name: &str) -> WebsiteDTO {
    WebsiteDTO { id, name: name.to_string() }
}

/// The logins table after a granted login is written.
fn apply_grant(logins: &[LoginRow], token: &str, account: &str) -> Vec<LoginRow> {
    let mut after: Vec<LoginRow> = logins.iter().filter(|l| l.account != account).cloned().collect();
    after.push(login(token, account));
    after
}

#[test]
fn api_key_missing_is_unauthorized() {
    let logins = vec![login("t1", "a1")];
    match ApiKey::from_request(None, &logins) {
        Err((code, e)) => {
            assert_eq!(code, 401);
            assert_eq!(e, ApiKeyError::Missing);
        }
        Ok(_) => panic!("accepted a missing key"),
    }
}

#[test]
fn api_key_unknown_is_forbidden() {
    let logins = vec![login("t1", "a1")];
    match ApiKey::from_request(Some("t2"), &logins) {
        Err((code, e)) => {
            assert_eq!(code, 403);
            assert_eq!(e, ApiKeyError::Invalid);
        }
        Ok(_) => panic!("accepted an unknown key"),
    }
}

#[test]
fn api_key_known_is_accepted() {
    let logins = vec![login("t0", "a0"), login("t1", "a1")];
    match ApiKey::from_request(Some("t1"), &logins) {
        Ok(k) => assert_eq!(k.0, "t1"),
        Err(_) => panic!("refused a known key"),
    }
}

#[test]
fn login_with_matching_credentials_is_granted() {
    let accounts = vec![account("a0", Some("bob"), Some("x")), account("a1", Some("alice"), Some(HELLO_HASH))];
    let input = LoginInput { password: "hello".to_string(), username: "alice".to_string() };
    match get_login(&input, &accounts) {
        LoginDecision::Granted(g) => {
            assert_eq!(g.account, "a1");
            assert_eq!(g.token.len(), 36);
            for (i, c) in g.token.chars().enumerate() {
                if i == 8 || i == 13 || i == 18 || i == 23 {
                    assert_eq!(c, '-');
                } else {
                    assert!(c.is_ascii_digit() || ('a'..='f').contains(&c));
                }
            }
            assert_eq!(g.token.chars().nth(14), Some('4'));
            let response = LoginDecision::Granted(g.clone()).response();
            assert_eq!(response.token, g.token);
        }
        LoginDecision::Refused => panic!("refused matching credentials"),
    }
}

#[test]
fn login_with_wrong_password_or_name_is_refused() {
    let accounts = vec![account("a1", Some("alice"), Some(HELLO_HASH))];
    let wrong_pw = LoginInput { password: "hellO".to_string(), username: "alice".to_string() };
    assert!(matches!(get_login(&wrong_pw, &accounts), LoginDecision::Refused));
    let wrong_name = LoginInput { password: "hello".to_string(), username: "bob".to_string() };
    assert!(matches!(get_login(&wrong_name, &accounts), LoginDecision::Refused));
    // The stored hash is compared, not the password itself.
    let plain = vec![account("a1", Some("alice"), Some("hello"))];
    let input = LoginInput { password: "hello".to_string(), username: "alice".to_string() };
    assert!(matches!(get_login(&input, &plain), LoginDecision::Refused));
    assert_eq!(LoginDecision::Refused.response().token, "");
}

#[test]
fn login_with_null_columns_is_refused() {
    let accounts = vec![account("a1", None, Some(HELLO_HASH)), account("a2", Some("alice"), None)];
    let input = LoginInput { password: "hello".to_string(), username: "alice".to_string() };
    assert!(matches!(get_login(&input, &accounts), LoginDecision::Refused));
}

#[test]
fn login_opens_first_account_with_the_hash() {
    // Two accounts share a password: the first one by table order gets the token.
    let accounts = vec![account("a0", Some("bob"), Some(HELLO_HASH)), account("a1", Some("alice"), Some(HELLO_HASH))];
    let input = LoginInput { password: "hello".to_string(), username: "alice".to_string() };
    match get_login(&input, &accounts) {
        LoginDecision::Granted(g) => assert_eq!(g.account, "a0"),
        LoginDecision::Refused => panic!("refused matching credentials"),
    }
}

#[test]
fn login_replaces_earlier_tokens() {
    let accounts = vec![account("a1", Some("alice"), Some(HELLO_HASH))];
    let logins = vec![login("old", "a1"), login("other", "a2")];
    let input = LoginInput { password: "hello".to_string(), username: "alice".to_string() };
    let grant = match get_login(&input, &accounts) {
        LoginDecision::Granted(g) => g,
        LoginDecision::Refused => panic!("refused"),
    };
    let after = apply_grant(&logins, &grant.token, &grant.account);
    assert!(ApiKey::from_request(Some(&grant.token), &after).is_ok());
    assert!(ApiKey::from_request(Some("old"), &after).is_err());
    assert!(ApiKey::from_request(Some("other"), &after).is_ok());
    let passwords = vec![stored(1, "u", "s", 5, "a1"), stored(2, "v", "s", 5, "a2")];
    let key = ApiKey(&grant.token);
    let listed = get_passwords_with_website(5, &key, &passwords, &after);
    assert_eq!(listed.len(), 1);
    assert_eq!(listed[0].id, 1);
    assert!(get_passwords_with_website(5, &ApiKey("old"), &passwords, &after).is_empty());
}

#[test]
fn listing_keeps_website_and_token_owner() {
    let logins = vec![login("t1", "a1"), login("t2", "a2")];
    let passwords = vec![
        stored(1, "u1", "s", 7, "a1"),
        stored(2, "u2", "s", 8, "a1"),
        stored(3, "u3", "s", 7, "a2"),
        stored(4, "u4", "s", 7, "a1"),
    ];
    let r = get_passwords_with_website(7, &ApiKey("t1"), &passwords, &logins);
    let ids: Vec<i32> = r.iter().map(|p| p.id).collect();
    assert_eq!(ids, vec![1, 4]);
    assert_eq!(r[0].username, "u1");
    assert_eq!(r[0].website, 7);
    assert!(get_passwords_with_website(7, &ApiKey("nope"), &passwords, &logins).is_empty());
}

#[test]
fn listing_repeats_rows_per_matching_login() {
    let logins = vec![login("t1", "a1"), login("t1", "a1")];
    let passwords = vec![stored(1, "u1", "s", 7, "a1")];
    let r = get_passwords_with_website(7, &ApiKey("t1"), &passwords, &logins);
    assert_eq!(r.len(), 2);
}

#[test]
fn stored_password_reads_back() {
    let logins = vec![login("t0", "a0"), login("t1", "a1")];
    let input = PasswordInput {
        username: "me@example.com".to_string(),
        password: "s3cret!".to_string(),
        passphrase: "a long master passphrase".to_string(),
        website: 3,
    };
    let template = new_password(&input, &ApiKey("t1"), &logins).ok().unwrap();
    assert_eq!(template.account, "a1");
    assert_eq!(template.website, 3);
    assert_eq!(template.username, "me@example.com");
    assert_eq!(template.nonce, "");
    let mut passwords = vec![stored(1, "x", "y", 3, "a0")];
    passwords.push(PasswordRow {
        id: 2,
        username: template.username.clone(),
        password: template.password.clone(),
        nonce: template.nonce.clone(),
        website: template.website,
        account: template.account.clone(),
    });
    let newest = newest_password(&passwords).unwrap();
    assert_eq!(newest.id, 2);
    assert_eq!(newest.password, template.password);
    let info = Info { password: "a long master passphrase".to_string() };
    let read = get_password_with_id(3, 2, &info, &ApiKey("t1"), &passwords, &logins);
    assert_eq!(read.len(), 1);
    assert_eq!(read[0].password, "s3cret!");
    assert_eq!(read[0].id, 2);
    assert_eq!(read[0].username, "me@example.com");
    let wrong = Info { password: "another passphrase!!".to_string() };
    let read = get_password_with_id(3, 2, &wrong, &ApiKey("t1"), &passwords, &logins);
    assert_eq!(read[0].password, "");
    // Another account's token does not see it.
    assert!(get_password_with_id(3, 2, &info, &ApiKey("t0"), &passwords, &logins).is_empty());
    // Nor does another id or website.
    assert!(get_password_with_id(4, 2, &info, &ApiKey("t1"), &passwords, &logins).is_empty());
}

#[test]
fn new_password_refuses_short_passphrase() {
    let logins = vec![login("t1", "a1")];
    let input = PasswordInput {
        username: "u".to_string(),
        password: "p".to_string(),
        passphrase: "too short".to_string(),
        website: 1,
    };
    assert_eq!(new_password(&input, &ApiKey("t1"), &logins).err(), Some(406));
    // The passphrase is checked before the token.
    assert_eq!(new_password(&input, &ApiKey("nope"), &logins).err(), Some(406));
}

#[test]
fn new_password_with_unknown_token_is_not_found() {
    let logins = vec![login("t1", "a1")];
    let input = PasswordInput {
        username: "u".to_string(),
        password: "p".to_string(),
        passphrase: "sixteen chars ok".to_string(),
        website: 1,
    };
    assert_eq!(new_password(&input, &ApiKey("t2"), &logins).err(), Some(404));
    assert_eq!(new_password(&input, &ApiKey("t2"), &[]).err(), Some(404));
}

#[test]
fn new_password_uses_first_login_row_of_token() {
    let logins = vec![login("t1", "a1"), login("t1", "a2")];
    let input = PasswordInput {
        username: "u".to_string(),
        password: "p".to_string(),
        passphrase: "sixteen chars ok".to_string(),
        website: 1,
    };
    assert_eq!(new_password(&input, &ApiKey("t1"), &logins).ok().unwrap().account, "a1");
}

#[test]
fn newest_password_picks_largest_id() {
    assert!(newest_password(&[]).is_none());
    let passwords = vec![stored(3, "a", "s", 1, "x"), stored(9, "b", "s", 1, "x"), stored(5, "c", "s", 1, "x")];
    let n = newest_password(&passwords).unwrap();
    assert_eq!(n.id, 9);
    assert_eq!(n.username, "b");
}

#[test]
fn simple_password_from_full_entry() {
    let full = PasswordDTO { id: 4, username: "u".to_string(), password: "p".to_string(), website: 9 };
    let simple = SimplePasswordDTO::from(full);
    assert_eq!(simple.id, 4);
    assert_eq!(simple.username, "u");
    assert_eq!(simple.website, 9);
}

#[test]
fn websites_listing_is_distinct_and_owned() {
    let logins = vec![login("t1", "a1"), login("t2", "a2")];
    let passwords = vec![
        stored(1, "u", "s", 10, "a1"),
        stored(2, "u", "s", 10, "a1"),
        stored(3, "u", "s", 30, "a1"),
        stored(4, "u", "s", 20, "a2"),
    ];
    let websites = vec![site(10, "ten"), site(20, "twenty"), site(30, "thirty"), site(40, "forty")];
    let r = get_websites(&ApiKey("t1"), &websites, &passwords, &logins);
    let ids: Vec<i32> = r.iter().map(|w| w.id).collect();
    assert_eq!(ids, vec![10, 30]);
    assert_eq!(r[1].name, "thirty");
    assert!(get_websites(&ApiKey("t3"), &websites, &passwords, &logins).is_empty());
}

#[test]
fn websites_listing_collapses_equal_rows() {
    let logins = vec![login("t1", "a1")];
    let passwords = vec![stored(1, "u", "s", 10, "a1")];
    let websites = vec![site(10, "ten"), site(10, "ten"), site(10, "TEN")];
    let r = get_websites(&ApiKey("t1"), &websites, &passwords, &logins);
    assert_eq!(r.len(), 2);
    assert_eq!(r[0].name, "ten");
    assert_eq!(r[1].name, "TEN");
}

#[test]
fn website_search_refuses_ip_and_short_names() {
    let websites = vec![site(1, "192.168.0.1"), site(2, "ab")];
    assert_eq!(get_website_by_name("192.168.0.1", &websites).err(), Some(404));
    assert_eq!(get_website_by_name("ab", &websites).err(), Some(404));
    assert_eq!(get_website_by_name("", &websites).err(), Some(404));
    // Two bytes in one character is still too short.
    assert_eq!(get_website_by_name("é", &websites).err(), Some(404));
    assert!(get_website_by_name("éa", &websites).is_ok());
}

#[test]
fn website_search_finds_containing_names() {
    let websites = vec![site(1, "github.com"), site(2, "gitlab.com"), site(3, "example.org")];
    let r = get_website_by_name("git", &websites).ok().unwrap();
    let ids: Vec<i32> = r.iter().map(|w| w.id).collect();
    assert_eq!(ids, vec![1, 2]);
    let r = get_website_by_name(".com", &websites).ok().unwrap();
    assert_eq!(r.len(), 2);
    let r = get_website_by_name("g_t", &websites).ok().unwrap();
    assert_eq!(r.len(), 2);
    let r = get_website_by_name("nothing", &websites).ok().unwrap();
    assert!(r.is_empty());
}

#[test]
fn new_website_refuses_ip_names() {
    let input = WebsiteInput { name: "10.0.0.1:80".to_string() };
    assert_eq!(new_website(&input, &[]).err(), Some(406));
}

#[test]
fn new_website_inserts_only_unmatched_names() {
    let websites = vec![site(1, "github.com")];
    let plan = new_website(&WebsiteInput { name: "github".to_string() }, &websites).ok().unwrap();
    assert_eq!(plan.pattern, "%github%");
    assert!(plan.insert.is_none());
    let plan = new_website(&WebsiteInput { name: "gitlab.com".to_string() }, &websites).ok().unwrap();
    assert_eq!(plan.insert.unwrap().name, "gitlab.com");
}

#[test]
fn registered_website_is_found_after_insert() {
    let mut websites = vec![site(5, "example.org")];
    let plan = new_website(&WebsiteInput { name: "gitlab.com".to_string() }, &websites).ok().unwrap();
    let row = plan.insert.unwrap();
    websites.push(site(6, &row.name));
    let found = first_website_like(&websites, &plan.pattern).unwrap();
    assert_eq!(found.id, 6);
    assert_eq!(found.name, "gitlab.com");
}

#[test]
fn first_website_like_takes_smallest_id() {
    let websites = vec![site(9, "abc"), site(2, "xabc"), site(4, "abcx"), site(1, "zzz")];
    let found = first_website_like(&websites, "%abc%").unwrap();
    assert_eq!(found.id, 2);
    assert!(first_website_like(&websites, "%qq%").is_none());
}

#[test]
fn cors_headers() {
    let cors = CORS;
    assert_eq!(cors.info_name(), "Add CORS headers to responses");
    let h = cors.response_headers();
    assert_eq!(
        h,
        vec![
            ("Access-Control-Allow-Origin", "*"),
            ("Access-Control-Allow-Methods", "POST, GET, PATCH, OPTIONS"),
            ("Access-Control-Allow-Headers", "*"),
            ("Access-Control-Allow-Credentials", "true"),
        ]
    );
}

#[test]
fn second_login_revokes_first_token() {
    let accounts = vec![account("a1", Some("alice"), Some(HELLO_HASH))];
    let input = LoginInput { password: "hello".to_string(), username: "alice".to_string() };
    let grant = |d: LoginDecision| match d {
        LoginDecision::Granted(g) => g,
        LoginDecision::Refused => panic!("refused"),
    };
    let first = grant(get_login(&input, &accounts));
    let logins = apply_grant(&[login("x", "a2")], &first.token, &first.account);
    let second = grant(get_login(&input, &accounts));
    assert_ne!(first.token, second.token);
    let logins = apply_grant(&logins, &second.token, &second.account);
    match ApiKey::from_request(Some(&first.token), &logins) {
        Err((code, e)) => {
            assert_eq!(code, 403);
            assert_eq!(e, ApiKeyError::Invalid);
        }
        Ok(_) => panic!("first token still accepted"),
    }
    assert!(ApiKey::from_request(Some(&second.token), &logins).is_ok());
    assert!(ApiKey::from_request(Some("x"), &logins).is_ok());
}

#[test]
fn second_registration_changes_nothing() {
    let mut websites = vec![site(1, "example.org")];
    let input = WebsiteInput { name: "gitlab.com".to_string() };
    let first = new_website(&input, &websites).ok().unwrap();
    let row = first.insert.unwrap();
    websites.push(site(2, &row.name));
    let second = new_website(&input, &websites).ok().unwrap();
    assert!(second.insert.is_none());
    assert_eq!(second.pattern, first.pattern);
    let found = first_website_like(&websites, &second.pattern).unwrap();
    assert_eq!(found.id, 2);
}

#[test]
fn logins_keep_one_token_per_account() {
    let accounts = vec![
        account("a1", Some("alice"), Some(HELLO_HASH)),
        account("a2", Some("bob"), Some("0000")),
    ];
    let input = LoginInput { password: "hello".to_string(), username: "alice".to_string() };
    let mut logins = vec![login("b", "a2")];
    for _ in 0..3 {
        match get_login(&input, &accounts) {
            LoginDecision::Granted(g) => logins = apply_grant(&logins, &g.token, &g.account),
            LoginDecision::Refused => panic!("refused"),
        }
        assert_eq!(logins.iter().filter(|l| l.account == "a1").count(), 1);
        assert_eq!(logins.iter().filter(|l| l.account == "a2").count(), 1);
    }
}

#[test]
fn stored_password_website_is_listed() {
    let logins = vec![login("t1", "a1")];
    let input = PasswordInput {
        username: "me".to_string(),
        password: "pw".to_string(),
        passphrase: "a long master passphrase".to_string(),
        website: 20,
    };
    let template = new_password(&input, &ApiKey("t1"), &logins).ok().unwrap();
    let websites = vec![site(10, "ten"), site(20, "twenty")];
    assert!(get_websites(&ApiKey("t1"), &websites, &[], &logins).is_empty());
    let passwords = vec![PasswordRow {
        id: 1,
        username: template.username.clone(),
        password: template.password.clone(),
        nonce: template.nonce.clone(),
        website: template.website,
        account: template.account.clone(),
    }];
    let r = get_websites(&ApiKey("t1"), &websites, &passwords, &logins);
    assert_eq!(r.len(), 1);
    assert_eq!(r[0].id, 20);
    assert_eq!(r[0].name, "twenty");
}

#[test]
fn other_accounts_rows_do_not_change_answers() {
    let logins = vec![login("t1", "a1"), login("t2", "a2")];
    let mine = vec![stored(1, "u1", "s", 7, "a1")];
    let mut both = mine.clone();
    both.push(stored(2, "u2", "s", 7, "a2"));
    both.push(stored(3, "u3", "s", 8, "a3"));
    let websites = vec![site(7, "seven"), site(8, "eight")];
    let info = Info { password: "whatever passphrase".to_string() };
    let listed = |rows: &[PasswordRow]| -> Vec<(i32, String, i32)> {
        get_passwords_with_website(7, &ApiKey("t1"), rows, &logins)
            .iter()
            .map(|p| (p.id, p.username.clone(), p.website))
            .collect()
    };
    assert_eq!(listed(&mine), listed(&both));
    let opened = |rows: &[PasswordRow]| -> Vec<(i32, String, String, i32)> {
        get_password_with_id(7, 1, &info, &ApiKey("t1"), rows, &logins)
            .iter()
            .map(|p| (p.id, p.username.clone(), p.password.clone(), p.website))
            .collect()
    };
    assert_eq!(opened(&mine), opened(&both));
    let sites = |rows: &[PasswordRow]| -> Vec<(i32, String)> {
        get_websites(&ApiKey("t1"), &websites, rows, &logins).iter().map(|w| (w.id, w.name.clone())).collect()
    };
    assert_eq!(sites(&mine), sites(&both));
    assert_eq!(sites(&both), vec![(7, "seven".to_string())]);
}

#[test]
fn plain_ascii_names_pass_the_ip_rule() {
    let websites = vec![site(1, "abcde")];
    let r = get_website_by_name("bcd", &websites).ok().unwrap();
    assert_eq!(r.len(), 1);
    assert_eq!(get_website_by_name("1.2.3.4", &websites).err(), Some(404));
}
