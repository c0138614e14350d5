use model_imagery_server::entity::{
    check_request, tiling_scheme_for, GetMapUserError, TilingSchemeKind, DEFAULT_TILE_SIZE,
};
use model_imagery_server::url_list::split_urls;
use model_imagery_server::url_template::make_request_url;
use new_string_template::template::Template;
use regex::Regex;
use std::collections::HashMap;

#[test]
fn test_urls_split() {
    let s0 = "http://intenal.geoway-atlas.com:31280/mapserver/vmap/osm_landuse_zhucheng/getMap?styleId=osm_landuse_zhucheng&x={x}&y={y}&l={z}";
    let s1 = r#"http://intenal.geoway-atlas.com:31280/mapserver/vmap/hl_china/getMap?styleId=new&x={x}&y={y}&l={z}&control={"otherDisplay":true,"layers":[{"id":"osm_landuse_zhucheng","filterStr":"name!=房屋"}]}"#;
    let s2 = "http://intenal.geoway-atlas.com:31280/mapserver/vmap/osm_road_zhucheng/getMap?styleId=osm_road_zhucheng&x={x}&y={y}&l={z}";
    let s = format!("{},{},{}", s0, s1, s2);
    let urls = split_urls(&s);
    assert_eq!(urls.len(), 3);
    assert_eq!(urls[0], s0);
    assert_eq!(urls[1], s1);
    assert_eq!(urls[2], s2);

    let s0 = "https://intenal.geoway-atlas.com:31280/mapserver/vmap/osm_landuse_zhucheng/getMap?styleId=osm_landuse_zhucheng&x={x}&y={y}&l={z}";
    let s1 = r#"http://intenal.geoway-atlas.com:31280/mapserver/vmap/hl_china/getMap?styleId=new&x={x}&y={y}&l={z}&control={"otherDisplay":true,"http":[{"id":"osm_landuse_zhucheng","filterStr":"name!=房屋"}]}"#;
    let s2 = "https://intenal.geoway-atlas.com:31280/mapserver/vmap/osm_road_zhucheng/getMap?styleId=osm_road_zhucheng&x={x}&y={y}&l={z}";
    let s = format!("{},{},{}", s0, s1, s2);
    let urls = split_urls(&s);
    assert_eq!(urls.len(), 3);
    assert_eq!(urls[0], s0);
    assert_eq!(urls[1], s1);
    assert_eq!(urls[2], s2);
}

#[test]
fn test_url_split_render() {
    let url = r#"http://intenal.geoway-atlas.com:31280/mapserver/vmap/hl_china/getMap?styleId=new&x={x}&y={y}&l={z}&control={"otherDisplay":true,"layers":[{"id":"osm_landuse_zhucheng","filterStr":"name!=房屋"}]}"#.to_string();
    let expect_url = r#"http://intenal.geoway-atlas.com:31280/mapserver/vmap/hl_china/getMap?styleId=new&x=1&y=1&l=1&control={"otherDisplay":true,"layers":[{"id":"osm_landuse_zhucheng","filterStr":"name!=房屋"}]}"#.to_string();
    let re = Regex::new(r"\{(\d+\-\d+)\}|\{((\d+\,?)*)\}").unwrap();
    assert!(re.is_match(&url) == false);

    let custom_regex = Regex::new(r"(?mi)\{\s*(\S+?)\s*\}").unwrap();
    let templ = Template::new(&url).with_regex(&custom_regex);
    let data = {
        let mut map = HashMap::new();
        map.insert("x", "1");
        map.insert("y", "1");
        map.insert("z", "1");
        map
    };
    let rendered = templ.render_nofail(&data);
    println!("{}", rendered);
    assert!(rendered == expect_url);

    let request_url = make_request_url(&url, 1, 1, 1).unwrap();
    println!("{}", expect_url);
    assert!(request_url == expect_url);
}

#[test]
fn test_regex() {
    {
        let url = "https://t{2-10}.tianditu.gov.cn{1-5}/img_c/wmts?SERVICE=WMTS&REQUEST=GetTile&VERSION=1.0.0&LAYER=img&STYLE=default&TILEMATRIXSET=w&FORMAT=tiles&TILECOL={x}&TILEROW={y}&TILEMATRIX={z}&tk=75f0434f240669f4a2df6359275146d2";
        let re = Regex::new(r"\{(\d+\-\d+)\}").unwrap();
        assert!(re.is_match(url));
        let mut caps = re.captures_iter(url);
        let mut cap = caps.next().unwrap();
        assert_eq!("{2-10}", &cap[0]);
        assert_eq!("2-10", &cap[1]);

        let mut new_url = url.to_string();
        let matched = cap.get(1).unwrap();
        new_url.replace_range(matched.start()..matched.end(), "s");
        assert_eq!(new_url, "https://t{s}.tianditu.gov.cn{1-5}/img_c/wmts?SERVICE=WMTS&REQUEST=GetTile&VERSION=1.0.0&LAYER=img&STYLE=default&TILEMATRIXSET=w&FORMAT=tiles&TILECOL={x}&TILEROW={y}&TILEMATRIX={z}&tk=75f0434f240669f4a2df6359275146d2".to_string());

        cap = caps.next().unwrap();
        assert_eq!("{1-5}", &cap[0]);
        assert_eq!("1-5", &cap[1]);
    }
    {
        let url = "https://t{2,3,4}.tianditu.gov.cn{4,5,6}/img_c/wmts?SERVICE=WMTS&REQUEST=GetTile&VERSION=1.0.0&LAYER=img&STYLE=default&TILEMATRIXSET=w&FORMAT=tiles&TILECOL={x}&TILEROW={y}&TILEMATRIX={z}&tk=75f0434f240669f4a2df6359275146d2";
        let re = Regex::new(r"\{((\d+,?)*)\}").unwrap();
        assert!(re.is_match(url));
        let mut caps = re.captures_iter(url);
        let mut cap = caps.next().unwrap();
        assert_eq!("{2,3,4}", &cap[0]);
        assert_eq!("2,3,4", &cap[1]);

        cap = caps.next().unwrap();
        assert_eq!("{4,5,6}", &cap[0]);
        assert_eq!("4,5,6", &cap[1]);
    }
    {
        let url = "https://t{2-10}.tianditu.gov.cn{2,3,4}/{2,3,4}img_c/wmts?SERVICE=WMTS&REQUEST=GetTile&VERSION=1.0.0&LAYER=img&STYLE=default&TILEMATRIXSET=w&FORMAT=tiles&TILECOL={x}&TILEROW={y}&TILEMATRIX={z}&tk=75f0434f240669f4a2df6359275146d2";
        let re = Regex::new(r"\{(\d+\-\d+)\}|\{((\d+\,?)*)\}").unwrap();
        assert!(re.is_match(url));
        let mut caps = re.captures_iter(url);
        let mut cap = caps.next().unwrap();
        assert_eq!("{2-10}", &cap[0]);
        assert_eq!("2-10", &cap[1]);
        cap = caps.next().unwrap();
        assert_eq!("{2,3,4}", &cap[0]);
        assert!(cap.get(1).is_none());
        assert_eq!("2,3,4", &cap[2]);
    }
    {
        let url = "https://t2.tianditu.gov.cn/img_c/wmts?SERVICE=WMTS&REQUEST=GetTile&VERSION=1.0.0&LAYER=img&STYLE=default&TILEMATRIXSET=w&FORMAT=tiles&TILECOL={x}&TILEROW={y}&TILEMATRIX={z}&tk=75f0434f240669f4a2df6359275146d2";
        let re = Regex::new(r"\{(\d+\-\d+)\}|\{((\d+\,?)*)\}").unwrap();
        assert!(!re.is_match(url));
    }
}

#[test]
fn test_make_request_url() {
    let mut url = "http://intenal.geoway-atlas.com:31280/mapserver/vmap/osm_landuse_zhucheng/getMap?styleId=osm_landuse_zhucheng&x={x}&y={y}&l={z}".to_string();
    let mut request_url = make_request_url(&url, 1, 1, 1).unwrap();
    let expect_url = "http://intenal.geoway-atlas.com:31280/mapserver/vmap/osm_landuse_zhucheng/getMap?styleId=osm_landuse_zhucheng&x=1&y=1&l=1".to_string();
    assert!(request_url == expect_url);
    url = "https://t{2-10}.tianditu.gov.cn/img_c{1,2,3}/wmts?SERVICE=WMTS&REQUEST=GetTile&VERSION=1.0.0&LAYER=img&STYLE=default&TILEMATRIXSET=w&FORMAT=tiles&TILECOL={x}&TILEROW={y}&TILEMATRIX={z}&tk=75f0434f240669f4a2df6359275146d2".to_string();
    request_url = make_request_url(&url, 1, 1, 1).unwrap();
    let re = Regex::new(r"https://t\d+\.tianditu\.gov\.cn\/img\_c[1,2,3]{1}").unwrap();
    assert!(re.is_match(&request_url));
}

#[test]
fn check_request_and_tiling_scheme() {
    assert_eq!(check_request(&vec![], Some(256), 512), Err(GetMapUserError::ParamsError));
    assert_eq!(check_request(&vec!["http://a".to_string()], None, 512), Ok(512));
    assert_eq!(check_request(&vec!["http://a".to_string()], Some(DEFAULT_TILE_SIZE), 512), Ok(256));
    assert_eq!(tiling_scheme_for(4326), TilingSchemeKind::Geographic);
    assert_eq!(tiling_scheme_for(3857), TilingSchemeKind::WebMercator);
}
