use route_planning::osm_reader::{de_u64_from_str, str_equal, HighwayType, OsmNd, OsmTag, OsmWay};

use xml::reader::{EventReader, XmlEvent};

fn read_way(s: &str) -> OsmWay {
    let mut way = OsmWay { id: 0, nodes: Vec::new(), tags: Vec::new() };
    for event in EventReader::new(s.as_bytes()) {
        if let Ok(XmlEvent::StartElement { name, attributes, .. }) = event {
            let attr = |k: &str| {
                attributes.iter().find(|a| a.name.local_name == k).map(|a| a.value.clone()).unwrap()
            };
            match name.local_name.as_str() {
                "way" => way.id = de_u64_from_str(&attr("id")).unwrap(),
                "nd" => way.nodes.push(OsmNd { ref_: de_u64_from_str(&attr("ref")).unwrap() }),
                "tag" => way.tags.push(OsmTag { key: attr("k"), value: attr("v") }),
                _ => {}
            }
        }
    }
    way
}

fn way_with_tags(tags: &[(&str, &str)]) -> OsmWay {
    OsmWay {
        id: 1,
        nodes: Vec::new(),
        tags: tags
            .iter()
            .map(|(k, v)| OsmTag { key: k.to_string(), value: v.to_string() })
            .collect(),
    }
}

#[test]
fn test_read_way() {
    let s = r##"
        <way id="26659127" visible="true">
            <nd ref="292403538"/>
            <nd ref="298884289"/>
            <nd ref="261728686"/>
            <tag k="name" v="Pastower Straße"/>
            <tag k="highway" v="unclassified"/>
        </way>
        "##;

    let osm_way: OsmWay = read_way(s);
    assert_eq!(26659127, osm_way.id);

    assert_eq!(3, osm_way.nodes.len());
    assert_eq!(292403538, osm_way.nodes[0].ref_);

    assert_eq!(2, osm_way.tags.len());
    let tag = &osm_way.tags[0];
    assert_eq!("name", tag.key);
    assert_eq!("Pastower Straße", tag.value);

    assert_eq!(HighwayType::Unclassified, osm_way.highway_type().unwrap());
    assert_eq!(false, osm_way.is_oneway());
}

#[test]
fn highway_names_map_to_classes() {
    assert_eq!(Some(HighwayType::Motorway), HighwayType::from_str("motorway"));
    assert_eq!(Some(HighwayType::TertiaryLink), HighwayType::from_str("tertiary_link"));
    assert_eq!(Some(HighwayType::LivingStreet), HighwayType::from_str("living_street"));
    assert_eq!(Some(HighwayType::Service), HighwayType::from_str("service"));
    assert_eq!(None, HighwayType::from_str("footway"));
    assert_eq!(None, HighwayType::from_str("Motorway"));
    assert_eq!(None, HighwayType::from_str(""));
}

#[test]
fn speeds_follow_the_road_class() {
    assert_eq!(110, HighwayType::Motorway.speed_kmh());
    assert_eq!(110, HighwayType::Trunk.speed_kmh());
    assert_eq!(70, HighwayType::Primary.speed_kmh());
    assert_eq!(60, HighwayType::Secondary.speed_kmh());
    assert_eq!(50, HighwayType::PrimaryLink.speed_kmh());
    assert_eq!(40, HighwayType::Unclassified.speed_kmh());
    assert_eq!(30, HighwayType::Residential.speed_kmh());
    assert_eq!(10, HighwayType::Service.speed_kmh());
}

#[test]
fn first_matching_tag_wins() {
    let way = way_with_tags(&[("oneway", "yes"), ("highway", "primary"), ("highway", "service")]);
    assert_eq!(Some("primary"), way.get_tag_value("highway"));
    assert_eq!(None, way.get_tag_value("name"));
    assert_eq!(Some(HighwayType::Primary), way.highway_type());
    assert!(way.is_oneway());
}

#[test]
fn oneway_needs_yes() {
    assert!(!way_with_tags(&[("oneway", "no")]).is_oneway());
    assert!(!way_with_tags(&[("oneway", "-1")]).is_oneway());
    assert!(!way_with_tags(&[]).is_oneway());
    assert_eq!(None, way_with_tags(&[("highway", "footway")]).highway_type());
}

#[test]
fn decimal_identifiers_are_read() {
    assert_eq!(Some(470558), de_u64_from_str("470558"));
    assert_eq!(Some(0), de_u64_from_str("0"));
    assert_eq!(Some(12), de_u64_from_str("+12"));
    assert_eq!(Some(u64::MAX), de_u64_from_str("18446744073709551615"));
    assert_eq!(None, de_u64_from_str("18446744073709551616"));
    assert_eq!(None, de_u64_from_str(""));
    assert_eq!(None, de_u64_from_str("+"));
    assert_eq!(None, de_u64_from_str("-1"));
    assert_eq!(None, de_u64_from_str("12a"));
    assert_eq!(None, de_u64_from_str(" 12"));
}

#[test]
fn string_equality_compares_characters() {
    assert!(str_equal("Straße", "Straße"));
    assert!(!str_equal("Strasse", "Straße"));
    assert!(!str_equal("ab", "abc"));
    assert!(str_equal("", ""));
}
