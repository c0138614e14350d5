use model_imagery_server::text::decimal_string;
use model_imagery_server::url_list::split_urls;
use model_imagery_server::url_template::{
    fill_url_template, is_valid_url_template, make_request_url, request_arguments,
    substitute_placeholders,
};

fn s(x: &str) -> String {
    x.to_string()
}

#[test]
fn split_urls_gives_back_joined_urls() {
    let urls = vec![
        s("http://a.example/tiles?x={x}&y={y}&l={z}"),
        s("https://b.example/t?layers=a,b,c&x={x}"),
        s("http://c.example/{z}/{x}/{y}.png"),
    ];
    let joined = urls.join(",");
    assert_eq!(split_urls(&joined), urls);
}

#[test]
fn split_urls_single_and_empty() {
    assert_eq!(split_urls(&s("http://only.example/a,b")), vec![s("http://only.example/a,b")]);
    assert!(split_urls(&s("")).is_empty());
    assert!(split_urls(&s("not a url")).is_empty());
}

#[test]
fn split_urls_skips_text_before_a_scheme() {
    assert_eq!(
        split_urls(&s("junk,http://a.example/1,http://b.example/2")),
        vec![s("http://a.example/1"), s("http://b.example/2")]
    );
}

#[test]
fn split_urls_stops_at_line_feed() {
    // A URL whose body meets a line feed before `,http` or the end is not taken;
    // the scan resumes one character later.
    assert_eq!(split_urls(&s("http://a\nb")), Vec::<String>::new());
    assert_eq!(split_urls(&s("http://a\nhttp://b")), vec![s("http://b")]);
}

#[test]
fn split_urls_cuts_at_comma_http_only() {
    assert_eq!(
        split_urls(&s("http://a.example/?q=1,2,https://b.example/")),
        vec![s("http://a.example/?q=1,2"), s("https://b.example/")]
    );
}

#[test]
fn substitute_replaces_each_placeholder_inside() {
    assert_eq!(
        substitute_placeholders(&s("https://t{2-10}.host{1,2,3}/{x}/{y}/{z}")),
        s("https://t{s1}.host{s2}/{x}/{y}/{z}")
    );
    assert_eq!(substitute_placeholders(&s("{x}{}{1-2-3}")), s("{x}{s1}{1-2-3}"));
    let plain = s("http://h/{x}/{y}/{z}");
    assert_eq!(substitute_placeholders(&plain), plain);
}

#[test]
fn template_validity() {
    assert!(is_valid_url_template(&s("http://h/{x}/{y}/{z}")));
    assert!(is_valid_url_template(&s("http://t{2-10}.h/{1,2,3}")));
    assert!(is_valid_url_template(&s("http://t{007}.h")));
    // An empty range, an empty list and a list with an empty item offer no number.
    assert!(!is_valid_url_template(&s("http://t{5-5}.h")));
    assert!(!is_valid_url_template(&s("http://t{9-2}.h")));
    assert!(!is_valid_url_template(&s("http://t{}.h")));
    assert!(!is_valid_url_template(&s("http://t{1,}.h")));
    // A number that does not fit in a u32.
    assert!(!is_valid_url_template(&s("http://t{4294967296}.h")));
    assert!(is_valid_url_template(&s("http://t{4294967295}.h")));
    // At most thirty placeholders.
    let thirty: String = (0..30).map(|_| "{1}").collect();
    let thirty_one: String = (0..31).map(|_| "{1}").collect();
    assert!(is_valid_url_template(&thirty));
    assert!(!is_valid_url_template(&thirty_one));
}

#[test]
fn request_arguments_in_order() {
    let args = request_arguments(&vec![7, 12], 3, 4, 5);
    let expect: Vec<(String, String)> = vec![
        (s("s1"), s("7")),
        (s("s2"), s("12")),
        (s("z"), s("5")),
        (s("x"), s("3")),
        (s("y"), s("4")),
    ];
    assert_eq!(args, expect);
}

#[test]
fn fill_url_template_exact() {
    let t = s("https://t{2-10}.tianditu.gov.cn/img_c{1,2,3}/wmts?TILECOL={x}&TILEROW={y}&TILEMATRIX={z}");
    assert_eq!(
        fill_url_template(&t, &vec![4, 3], 13625, 2456, 13),
        s("https://t4.tianditu.gov.cn/img_c3/wmts?TILECOL=13625&TILEROW=2456&TILEMATRIX=13")
    );
}

#[test]
fn make_request_url_picks_from_each_placeholder() {
    let t = s("https://t{2-10}.h/{7,9}/{x}");
    for _ in 0..50 {
        let url = make_request_url(&t, 1, 2, 3).unwrap();
        let rest = url.strip_prefix("https://t").unwrap();
        let dot = rest.find('.').unwrap();
        let n: u32 = rest[..dot].parse().unwrap();
        assert!((2..10).contains(&n));
        assert!(url.ends_with("/7/1") || url.ends_with("/9/1"));
    }
}

#[test]
fn decimal_of_numbers() {
    assert_eq!(decimal_string(0), s("0"));
    assert_eq!(decimal_string(10), s("10"));
    assert_eq!(decimal_string(4294967295), s("4294967295"));
}
