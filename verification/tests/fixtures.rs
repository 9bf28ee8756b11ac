//! Shared CoT test fixtures and the checks they offer.

use std::time::{SystemTime, UNIX_EPOCH};

const STANDARD_TIME: &str = "2024-01-15T10:30:00.000Z";
const STANDARD_START: &str = "2024-01-15T10:30:00.000Z";
const STANDARD_STALE: &str = "2024-01-15T12:30:00.000Z";
const STANDARD_LAT: f64 = 37.7749;
const STANDARD_LON: f64 = -122.4194;
const STANDARD_HAE: f64 = 100.5;
const STANDARD_CE: f64 = 10.0;
const STANDARD_LE: f64 = 5.0;

struct CoTTestFixtures;

impl CoTTestFixtures {
    fn create_map_item_xml(uid: &str) -> String {
        format!(
            r#"<?xml version='1.0' encoding='UTF-8'?>
<event version='2.0' uid='{}' type='a-f-G-U-C' 
       time='{}' 
       start='{}' 
       stale='{}' 
       how='h-g-i-g-o'>
    <point lat='{:.6}' lon='{:.6}' hae='{:.1}' ce='{:.1}' le='{:.1}'/>
    <detail>
        <contact callsign='ALPHA-1' endpoint='192.168.1.100:4242:tcp'/>
        <__group name='Alpha Team' role='Team Leader'/>
        <takv os='31' version='5.4.0' device='ANDROID-001' platform='ATAK'/>
        <status battery='85'/>
        <track course='270.5' speed='15.2'/>
        <precisionlocation geopointsrc='GPS' altsrc='GPS'/>
    </detail>
</event>"#,
            uid, STANDARD_TIME, STANDARD_START, STANDARD_STALE,
            STANDARD_LAT, STANDARD_LON, STANDARD_HAE, STANDARD_CE, STANDARD_LE
        )
    }

    fn generate_uid(prefix: &str) -> String {
        let now = SystemTime::now().duration_since(UNIX_EPOCH).unwrap().as_millis();
        let nanos = SystemTime::now().duration_since(UNIX_EPOCH).unwrap().as_nanos() % 1000;
        format!("{}-{}-{}", prefix, now, nanos)
    }
}

struct TestUtils;

impl TestUtils {
    fn assert_valid_coordinates(lat: f64, lon: f64, hae: f64) -> Result<(), String> {
        if lat < -90.0 || lat > 90.0 {
            return Err(format!("Latitude should be between -90 and 90, was: {}", lat));
        }
        if lon < -180.0 || lon > 180.0 {
            return Err(format!("Longitude should be between -180 and 180, was: {}", lon));
        }
        if hae < -15000.0 || hae > 50000.0 {
            return Err(format!("HAE should be reasonable (between -15km and 50km), was: {}", hae));
        }
        Ok(())
    }

    fn assert_valid_timestamp(timestamp: u64) -> Result<(), String> {
        if timestamp == 0 {
            return Err("Timestamp should not be zero".to_string());
        }
        if timestamp <= 1_000_000_000_000_000 {
            return Err(format!("Timestamp should be in microseconds, was: {}", timestamp));
        }
        if timestamp >= 4_000_000_000_000_000 {
            return Err(format!("Timestamp should not be too far in future, was: {}", timestamp));
        }
        Ok(())
    }
}

#[test]
fn test_fixture_creation() {
    let xml = CoTTestFixtures::create_map_item_xml("TEST-001");
    assert!(xml.contains("TEST-001"));
    assert!(xml.contains("a-f-G-U-C"));
    assert!(xml.contains(&STANDARD_LAT.to_string()));
}

#[test]
fn test_uid_generation() {
    let uid1 = CoTTestFixtures::generate_uid("TEST");
    let uid2 = CoTTestFixtures::generate_uid("TEST");
    assert_ne!(uid1, uid2);
    assert!(uid1.starts_with("TEST-"));
    assert!(uid2.starts_with("TEST-"));
}

#[test]
fn test_coordinate_validation() {
    assert!(TestUtils::assert_valid_coordinates(37.7749, -122.4194, 100.5).is_ok());
    assert!(TestUtils::assert_valid_coordinates(0.0, 0.0, 0.0).is_ok());
    assert!(TestUtils::assert_valid_coordinates(91.0, 0.0, 0.0).is_err());
    assert!(TestUtils::assert_valid_coordinates(0.0, 181.0, 0.0).is_err());
    assert!(TestUtils::assert_valid_coordinates(0.0, 0.0, 60000.0).is_err());
}

#[test]
fn test_timestamp_validation() {
    assert!(TestUtils::assert_valid_timestamp(1_705_320_600_000_000).is_ok());
    assert!(TestUtils::assert_valid_timestamp(0).is_err());
    assert!(TestUtils::assert_valid_timestamp(1_705_320_600_000).is_err());
    assert!(TestUtils::assert_valid_timestamp(5_000_000_000_000_000).is_err());
}
