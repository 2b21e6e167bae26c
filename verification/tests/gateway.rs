use gameserver::comfyui::{replace_all, ComfyUI};
use gameserver::persist::parse_u32;

#[test]
fn replace_all_rewrites_every_occurrence() {
    assert_eq!(replace_all("a__K__b__K__c", "__K__", "1"), "a1b1c");
    assert_eq!(replace_all("nothing here", "__K__", "1"), "nothing here");
    assert_eq!(replace_all("", "__K__", "1"), "");
    assert_eq!(replace_all("__K__", "__K__", ""), "");
    // The scan is left to right and does not overlap matches.
    assert_eq!(replace_all("aaa", "aa", "x"), "xa");
    // An empty pattern leaves the text unchanged.
    assert_eq!(replace_all("abc", "", "x"), "abc");
}

#[test]
fn generate_request_fills_the_workflow_template() {
    let gateway = ComfyUI::new();
    let template = "{\"seed\":1110000111,\"text\":\"__PROMPT__\",\
                    \"url\":\"__WEBHOOK_URL__\",\"tag\":\"__PROMPT_ID__\"}";
    let (id, body) = gateway.generate_request(
        template,
        "http://127.0.0.1:3000/generation",
        "lighthouse",
    );
    let expected = format!(
        "{{\"seed\":{id},\"text\":\"lighthouse\",\
         \"url\":\"http://127.0.0.1:3000/generation\",\"tag\":\"{id}\"}}"
    );
    assert_eq!(body, expected);
}

#[test]
fn request_identities_come_back_through_the_webhook_field() {
    // The identity is sent as decimal text and read back by the webhook.
    let gateway = ComfyUI::new();
    let (id, _) = gateway.generate_request("__PROMPT_ID__", "u", "p");
    assert_eq!(parse_u32(id.to_string().as_str()), Some(id));
}
